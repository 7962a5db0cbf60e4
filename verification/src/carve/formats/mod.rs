//! The formats that are recognised.

pub mod asf;
pub mod bmp;
pub mod gif;
pub mod isobmff;
pub mod jpeg;
pub mod matroska;
pub mod mpeg;
pub mod pdf;
pub mod png;
pub mod riff;
pub mod tiff;
