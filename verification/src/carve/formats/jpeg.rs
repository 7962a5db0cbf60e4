//! JPEG carver: validate the marker-segment structure up to SOS, then
//! scan the entropy-coded data for the EOI marker. `FF D9` cannot occur
//! inside entropy data (encoders byte-stuff `FF` as `FF 00`), and the
//! thumbnails embedded in EXIF segments are skipped whole via their
//! declared segment lengths, so the first `FF D9` after SOS is the real
//! end of image, including for progressive JPEGs.

use crate::carve::bytes::{be16, get_be16, room, search_limit, smaller};
use crate::carve::carver::{
    bytes_at, Carver, CarverSpec, MAX_INPUT, Measure, Measured, ReadAt, Signature,
};
use crate::carve::search::{find_first, first_at, lemma_first_at_in_range};
use std::io;
use vstd::prelude::*;

verus! {

#[derive(Clone, Copy)]
pub struct Jpeg;

pub const MAX_LEN: u64 = 0x1000_0000;

/// The end-of-image marker.
pub open spec fn eoi_marker() -> Seq<u8> {
    seq![0xFFu8, 0xD9u8]
}

/// What the marker segments lead to.
pub enum Head {
    /// No image.
    Broken,
    /// The end of the image, with no scan data.
    End(int),
    /// The start of the entropy-coded data.
    Scan(int),
}

/// A marker that stands alone, without a segment.
pub open spec fn is_standalone(marker: u8) -> bool {
    marker == 0x01 || 0xD0 <= marker <= 0xD8
}

/// Where the marker segments from `pos` on lead.
pub open spec fn head(d: Seq<u8>, limit: int, pos: int) -> Head
    decreases room(pos, limit),
{
    let marker = d[pos + 1];
    let next = pos + 2 + be16(d, pos + 2);
    if pos + 4 > limit || d[pos] != 0xFF || marker == 0x00 || marker == 0xFF {
        Head::Broken
    } else if marker == 0xD9 {
        Head::End(pos + 2)
    } else if is_standalone(marker) {
        head(d, limit, pos + 2)
    } else if be16(d, pos + 2) < 2 {
        Head::Broken
    } else if marker == 0xDA {
        Head::Scan(next)
    } else {
        head(d, limit, next)
    }
}

impl Carver for Jpeg {
    open spec fn signature(&self) -> Signature {
        Signature {
            name: "jpeg"@,
            extension: "jpg"@,
            magics: seq![seq![0xFFu8, 0xD8u8, 0xFFu8]],
            magic_offset: 0,
            max_len: MAX_LEN as int,
        }
    }

    open spec fn measured(&self, d: Seq<u8>, start: int) -> Measure {
        let limit = smaller(start + MAX_LEN, d.len() as int);
        match head(d, limit, start + 2) {
            Head::Broken => None,
            Head::End(end) => Some((end - start, "jpg"@)),
            Head::Scan(pos) => match first_at(d, eoi_marker(), pos, limit) {
                Some(i) => Some((i + 2 - start, "jpg"@)),
                None => None,
            },
        }
    }

    fn spec(&self) -> (s: CarverSpec) {
        let s = CarverSpec {
            name: "jpeg",
            extension: "jpg",
            magics: &[&[0xFF, 0xD8, 0xFF]],
            magic_offset: 0,
            max_len: MAX_LEN,
        };
        assert(s.magics@[0]@ =~= self.signature().magics[0]);
        assert(s@ =~= self.signature());
        s
    }

    fn measure<R: ReadAt>(&self, r: &mut R, start: u64) -> (res: io::Result<Option<Measured>>) {
        let ghost d = r.contents();
        let total: u64 = r.total_len();
        let limit: u64 = search_limit(start, MAX_LEN, total);
        let mut pos: u64 = start + 2;  // past SOI
        // Walk marker segments until the first SOS.
        let mut in_head: bool = true;
        while in_head
            invariant
                d == old(r).contents(),
                r.contents() == d,
                old(r).reliable() ==> r.reliable(),
                total == d.len(),
                total <= MAX_INPUT,
                start <= MAX_INPUT,
                limit == smaller(start + MAX_LEN, total as int),
                start <= pos <= start + MAX_LEN + 0x1_0010,
                head(d, limit as int, start + 2) == if in_head {
                    head(d, limit as int, pos as int)
                } else {
                    Head::Scan(pos as int)
                },
            decreases in_head as int, room(pos as int, limit as int),
        {
            if pos + 4 > limit {
                return Ok(None);
            }
            let hdr: Vec<u8> = match bytes_at(r, pos, 4) {
                Ok(Some(v)) => v,
                Ok(None) => {
                    return Ok(None);
                },
                Err(e) => {
                    return Err(e);
                },
            };
            assert(hdr@[0] == d[pos as int] && hdr@[1] == d[pos + 1]);
            if hdr[0] != 0xFF {
                return Ok(None);
            }
            let marker: u8 = hdr[1];
            if marker == 0x00 || marker == 0xFF {
                // not a marker: bogus structure
                return Ok(None);
            }
            if marker == 0xD9 {
                // EOI with no scan data: degenerate but well-formed.
                return Ok(Some(Measured { len: pos + 2 - start, extension: "jpg" }));
            }
            if marker == 0x01 || (0xD0 <= marker && marker <= 0xD8) {
                pos = pos + 2;
            } else {
                let seg_len: u64 = get_be16(&hdr, 2) as u64;
                if seg_len < 2 {
                    return Ok(None);
                }
                pos = pos + 2 + seg_len;
                if marker == 0xDA {
                    // SOS: entropy-coded data follows
                    in_head = false;
                }
            }
        }
        // Scan entropy data for EOI.
        let eoi: [u8; 2] = [0xFF, 0xD9];
        assert(eoi@ =~= eoi_marker());
        match find_first(r, &eoi, pos, limit) {
            Ok(Some(i)) => {
                proof {
                    lemma_first_at_in_range(d, eoi_marker(), pos as int, limit as int);
                }
                Ok(Some(Measured { len: i + 2 - start, extension: "jpg" }))
            },
            Ok(None) => Ok(None),
            Err(e) => Err(e),
        }
    }
}

} // verus!
