//! Rescue of data from failing storage: multi-pass imaging and
//! structure-aware file carving.
//!
//! - [`map`]: the rescue map (GNU ddrescue mapfile compatible) that tracks
//!   the state of every byte of a source
//! - [`image`]: the multi-pass imaging engine (copy / trim / scrape / retry)
//! - [`carve`]: signature-based file extraction with carvers that follow
//!   the declared structure of each format
//! - [`requests`] and [`telling`]: what the texts that are read ask for, and
//!   what the texts that are written tell

pub mod carve;
pub mod cli;
pub mod device;
pub mod image;
pub mod map;
pub mod requests;
pub mod telling;
pub mod testutil;
pub mod text;
pub mod ui;
