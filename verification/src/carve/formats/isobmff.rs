//! ISO Base Media File Format (MP4 / MOV / HEIC / 3GP...) carver.
//!
//! Instead of guessing where a video ends by content sniffing (which is
//! what makes other carvers split videos into fragments), this walks the
//! top-level box chain (`ftyp`, `moov`, `mdat`, ...) following each box's
//! declared size, including 64-bit `largesize` boxes. The sum of the
//! declared sizes IS the exact file length, so the file is carved whole in
//! one piece.

use crate::carve::bytes::{be32, be64, get_be32, get_be64, holds, room, smaller};
use crate::carve::carver::{
    bytes_at, Carver, CarverSpec, MAX_INPUT, Measure, Measured, ReadAt, Signature,
};
use std::io;
use vstd::prelude::*;

verus! {

#[derive(Clone, Copy)]
pub struct IsoBmff;

/// 64 GiB: don't cap real camera footage.
pub const MAX_LEN: u64 = 0x10_0000_0000;

// Box types and brands, as big-endian numbers of four characters.
pub const FTYP: u32 = 0x66747970;
pub const MOOV: u32 = 0x6D6F6F76;
pub const MDAT: u32 = 0x6D646174;
pub const FREE: u32 = 0x66726565;
pub const SKIP: u32 = 0x736B6970;
pub const WIDE: u32 = 0x77696465;
pub const UUID: u32 = 0x75756964;
pub const META: u32 = 0x6D657461;
pub const MOOF: u32 = 0x6D6F6F66;
pub const MFRA: u32 = 0x6D667261;
pub const SIDX: u32 = 0x73696478;
pub const STYP: u32 = 0x73747970;
pub const PNOT: u32 = 0x706E6F74;
pub const UDTA: u32 = 0x75647461;
pub const PRFT: u32 = 0x70726674;
pub const EMSG: u32 = 0x656D7367;
pub const MFRO: u32 = 0x6D66726F;
pub const BRAND_QT: u32 = 0x71742020;
pub const BRAND_HEIC: u32 = 0x68656963;
pub const BRAND_HEIX: u32 = 0x68656978;
pub const BRAND_MIF1: u32 = 0x6D696631;
pub const BRAND_MSF1: u32 = 0x6D736631;
pub const BRAND_HEVC: u32 = 0x68657663;
pub const BRAND_AVIF: u32 = 0x61766966;

/// Box types that legitimately appear at the top level of a media file.
pub open spec fn is_top_level(t: int) -> bool {
    t == FTYP
        || t == MOOV
        || t == MDAT
        || t == FREE
        || t == SKIP
        || t == WIDE
        || t == UUID
        || t == META
        || t == MOOF
        || t == MFRA
        || t == SIDX
        || t == STYP
        || t == PNOT
        || t == UDTA
        || t == PRFT
        || t == EMSG
        || t == MFRO
}

/// Boxes that hold the media or its description.
pub open spec fn is_payload(t: int) -> bool {
    t == MDAT || t == MOOV || t == META || t == MOOF
}

/// The declared length of the box at `p`; nothing where it is not declared
/// or cannot be.
pub open spec fn box_len(d: Seq<u8>, p: int) -> Option<int> {
    let size = be32(d, p);
    if size == 1 {
        if holds(d, p + 8, 8) && be64(d, p + 8) >= 16 {
            Some(be64(d, p + 8))
        } else {
            None
        }
    } else if size < 8 {
        None
    } else {
        Some(size)
    }
}

/// Where the chain of top-level boxes from `pos` on ends, and whether it
/// holds a payload box. A box that runs past the end of the input is the
/// last one; the chain is followed up to the longest file.
pub open spec fn walk(d: Seq<u8>, start: int, pos: int, seen_payload: bool) -> (int, bool)
    decreases room(pos, d.len() as int),
{
    let kind = be32(d, pos + 4);
    if pos - start >= MAX_LEN || !holds(d, pos, 8) || (pos > start && (kind == FTYP
        || !is_top_level(kind))) {
        (pos, seen_payload)
    } else {
        match box_len(d, pos) {
            Some(len) if len > 0 => {
                let next = smaller(pos + len, u64::MAX as int);
                let seen = seen_payload || is_payload(kind);
                if next > d.len() || next <= pos {
                    (next, seen)
                } else {
                    walk(d, start, next, seen)
                }
            },
            _ => (pos, seen_payload),
        }
    }
}

/// A plausible `ftyp` box is small; garbage that happens to contain the
/// string "ftyp" is not one.
pub open spec fn starts_file(d: Seq<u8>, start: int) -> bool {
    &&& holds(d, start, 8)
    &&& be32(d, start + 4) == FTYP
    &&& 16 <= be32(d, start) <= 256
    &&& be32(d, start) % 4 == 0
}

pub open spec fn extension_of(brand: int) -> Seq<char> {
    if brand == BRAND_QT {
        "mov"@
    } else if brand == BRAND_HEIC || brand == BRAND_HEIX || brand == BRAND_MIF1 || brand
        == BRAND_MSF1 || brand == BRAND_HEVC {
        "heic"@
    } else if brand == BRAND_AVIF {
        "avif"@
    } else {
        "mp4"@
    }
}

fn top_level(t: u32) -> (r: bool)
    ensures
        r == is_top_level(t as int),
{
    t == FTYP
        || t == MOOV
        || t == MDAT
        || t == FREE
        || t == SKIP
        || t == WIDE
        || t == UUID
        || t == META
        || t == MOOF
        || t == MFRA
        || t == SIDX
        || t == STYP
        || t == PNOT
        || t == UDTA
        || t == PRFT
        || t == EMSG
        || t == MFRO
}

fn extension_for(brand: u32) -> (e: &'static str)
    ensures
        e@ == extension_of(brand as int),
{
    if brand == BRAND_QT {
        "mov"
    } else if brand == BRAND_HEIC || brand == BRAND_HEIX || brand == BRAND_MIF1 || brand
        == BRAND_MSF1 || brand == BRAND_HEVC {
        "heic"
    } else if brand == BRAND_AVIF {
        "avif"
    } else {
        "mp4"
    }
}

/// The declared length of the box at `pos`, whose 32-bit size is `size`.
fn declared_len<R: ReadAt>(r: &mut R, pos: u64, size: u32) -> (res: io::Result<Option<u64>>)
    requires
        pos <= MAX_INPUT,
        size == be32(old(r).contents(), pos as int),
    ensures
        final(r).contents() == old(r).contents(),
        old(r).reliable() ==> final(r).reliable() && res is Ok,
        match res {
            Ok(Some(n)) => box_len(old(r).contents(), pos as int) == Some(n as int),
            Ok(None) => box_len(old(r).contents(), pos as int) is None,
            Err(_) => true,
        },
{
    if size == 1 {
        match bytes_at(r, pos + 8, 8) {
            Ok(Some(large)) => {
                let n: u64 = get_be64(&large, 0);
                if n < 16 {
                    Ok(None)
                } else {
                    Ok(Some(n))
                }
            },
            Ok(None) => Ok(None),
            Err(e) => Err(e),
        }
    } else if size < 8 {
        // A size of 0 means "box extends to end of file": the length is
        // unknowable when carving.
        Ok(None)
    } else {
        Ok(Some(size as u64))
    }
}

impl Carver for IsoBmff {
    open spec fn signature(&self) -> Signature {
        Signature {
            name: "mp4"@,
            extension: "mp4"@,
            magics: seq![seq![0x66u8, 0x74u8, 0x79u8, 0x70u8]],
            magic_offset: 4,
            max_len: MAX_LEN as int,
        }
    }

    open spec fn measured(&self, d: Seq<u8>, start: int) -> Measure {
        let (end, seen_payload) = walk(d, start, start, false);
        if starts_file(d, start) && seen_payload && end - start > 24 {
            Some((smaller(end - start, MAX_LEN as int), extension_of(be32(d, start + 8))))
        } else {
            None
        }
    }

    fn spec(&self) -> (s: CarverSpec) {
        let s = CarverSpec {
            name: "mp4",
            extension: "mp4",
            magics: &[&[0x66, 0x74, 0x79, 0x70]],
            magic_offset: 4,
            max_len: MAX_LEN,
        };
        assert(s.magics@[0]@ =~= self.signature().magics[0]);
        assert(s@ =~= self.signature());
        s
    }

    fn measure<R: ReadAt>(&self, r: &mut R, start: u64) -> (res: io::Result<Option<Measured>>) {
        let ghost d = r.contents();
        let total: u64 = r.total_len();
        let first: Vec<u8> = match bytes_at(r, start, 8) {
            Ok(Some(v)) => v,
            Ok(None) => {
                return Ok(None);
            },
            Err(e) => {
                return Err(e);
            },
        };
        let size: u32 = get_be32(&first, 0);
        if get_be32(&first, 4) != FTYP || size < 16 || size > 256 || size % 4 != 0 {
            return Ok(None);
        }
        let mut pos: u64 = start;
        let mut seen_payload: bool = false;  // mdat / moov / meta / moof
        let mut going: bool = true;
        while going && pos < total && pos - start < MAX_LEN
            invariant
                d == old(r).contents(),
                r.contents() == d,
                old(r).reliable() ==> r.reliable(),
                total == d.len(),
                total <= MAX_INPUT,
                start <= MAX_INPUT,
                starts_file(d, start as int),
                start <= pos,
                seen_payload ==> start + 12 <= total && pos > start,
                walk(d, start as int, start as int, false) == if going {
                    walk(d, start as int, pos as int, seen_payload)
                } else {
                    (pos as int, seen_payload)
                },
                going ==> pos <= total,
            decreases going as int, room(pos as int, total as int),
        {
            let hdr: Vec<u8> = match bytes_at(r, pos, 8) {
                Ok(Some(v)) => v,
                Ok(None) => {
                    going = false;
                    continue ;
                },
                Err(e) => {
                    return Err(e);
                },
            };
            let size32: u32 = get_be32(&hdr, 0);
            let kind: u32 = get_be32(&hdr, 4);
            if pos > start && (kind == FTYP || !top_level(kind)) {
                // the next file begins here, or no valid top-level box
                going = false;
                continue ;
            }
            match declared_len(r, pos, size32) {
                Ok(Some(n)) => {
                    if kind == MDAT || kind == MOOV || kind == META || kind == MOOF {
                        seen_payload = true;
                    }
                    pos = pos.saturating_add(n);
                    if pos > total {
                        // Declared length runs past the end of the image
                        // (truncated source): keep the declared extent, up
                        // to the longest file.
                        going = false;
                    }
                },
                Ok(None) => {
                    going = false;
                },
                Err(e) => {
                    return Err(e);
                },
            }
        }
        let len: u64 = pos - start;
        if !seen_payload || len <= 24 {
            return Ok(None);
        }
        let brand: Vec<u8> = match bytes_at(r, start + 8, 4) {
            Ok(Some(v)) => v,
            Ok(None) => {
                return Ok(None);
            },
            Err(e) => {
                return Err(e);
            },
        };
        let capped: u64 = if len < MAX_LEN {
            len
        } else {
            MAX_LEN
        };
        Ok(Some(Measured { len: capped, extension: extension_for(get_be32(&brand, 0)) }))
    }
}

/// A top-level box stands between the places `k` and `k + 1` of `ps`; only
/// its header is looked at.
pub open spec fn is_box(d: Seq<u8>, ps: Seq<int>, k: int) -> bool {
    &&& holds(d, ps[k], 8)
    &&& is_top_level(kind_at(d, ps, k))
    &&& box_len(d, ps[k]) == Some(ps[k + 1] - ps[k])
    &&& ps[k] < ps[k + 1] <= d.len()
}

/// The type of the box at the place `k` of `ps`.
pub open spec fn kind_at(d: Seq<u8>, ps: Seq<int>, k: int) -> int {
    be32(d, ps[k] + 4)
}

/// The boxes between the places `ps` make up one file, and what follows is
/// not a further box of it: the input ends, another file begins, or there
/// is no top-level box with a length.
pub open spec fn is_box_file(d: Seq<u8>, ps: Seq<int>) -> bool {
    let n = ps.len() - 1;
    &&& n >= 1
    &&& d.len() <= MAX_INPUT
    &&& starts_file(d, ps[0])
    &&& forall|k: int| 0 <= k < n ==> #[trigger] is_box(d, ps, k)
    &&& forall|k: int| 0 < k < n ==> #[trigger] kind_at(d, ps, k) != FTYP
    &&& payload_from(d, ps, 0)
    &&& !holds(d, ps[n], 8) || kind_at(d, ps, n) == FTYP || !is_top_level(kind_at(d, ps, n))
        || box_len(d, ps[n]) is None
}

/// Some box from the `k`-th on holds a payload.
pub open spec fn payload_from(d: Seq<u8>, ps: Seq<int>, k: int) -> bool {
    exists|j: int| k <= j < ps.len() - 1 && is_payload(#[trigger] kind_at(d, ps, j))
}

proof fn lemma_payload_from(d: Seq<u8>, ps: Seq<int>, k: int)
    requires
        0 <= k < ps.len() - 1,
    ensures
        payload_from(d, ps, k) == (is_payload(kind_at(d, ps, k)) || payload_from(d, ps, k + 1)),
{
}

proof fn lemma_places_rise(d: Seq<u8>, ps: Seq<int>, i: int, j: int)
    requires
        forall|k: int| 0 <= k < ps.len() - 1 ==> #[trigger] is_box(d, ps, k),
        0 <= i <= j < ps.len(),
    ensures
        ps[i] <= ps[j],
        i < j ==> ps[i] < ps[j],
    decreases j - i,
{
    if i < j {
        assert(is_box(d, ps, j - 1));
        lemma_places_rise(d, ps, i, j - 1);
    }
}

proof fn lemma_walk_boxes(d: Seq<u8>, ps: Seq<int>, k: int, seen: bool)
    requires
        is_box_file(d, ps),
        0 <= k < ps.len(),
        ps[ps.len() - 1] - ps[0] <= MAX_LEN,
    ensures
        walk(d, ps[0], ps[k], seen) == (ps[ps.len() - 1], seen || payload_from(d, ps, k)),
    decreases ps.len() - k,
{
    lemma_places_rise(d, ps, 0, k);
    lemma_places_rise(d, ps, k, ps.len() - 1);
    if k < ps.len() - 1 {
        assert(is_box(d, ps, k));
        lemma_payload_from(d, ps, k);
        lemma_walk_boxes(d, ps, k + 1, seen || is_payload(kind_at(d, ps, k)));
    }
}

/// A video is carved whole: a file of top-level boxes is measured to the
/// end of its last box, whatever its boxes contain and whatever follows.
pub proof fn lemma_box_file_is_whole(d: Seq<u8>, ps: Seq<int>)
    requires
        is_box_file(d, ps),
        24 < ps[ps.len() - 1] - ps[0] <= MAX_LEN,
    ensures
        IsoBmff.measured(d, ps[0]) == Some(
            (ps[ps.len() - 1] - ps[0], extension_of(be32(d, ps[0] + 8))),
        ),
{
    lemma_walk_boxes(d, ps, 0, false);
}

} // verus!
