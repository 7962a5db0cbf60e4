//! PDF carver: a PDF ends at its **last** `%%EOF` (incremental updates
//! append additional xref sections, each with its own `%%EOF`). The scan
//! window is cut short at the next `%PDF-` header so a following PDF in
//! the image is never swallowed.

use crate::carve::bytes::{search_limit, smaller};
use crate::carve::carver::{Carver, CarverSpec, Measure, Measured, ReadAt, Signature};
use crate::carve::search::{
    find_first, find_last, first_at, last_at, lemma_first_at_in_range, lemma_last_at_in_range,
    piece_at,
};
use std::io;
use vstd::prelude::*;

verus! {

#[derive(Clone, Copy)]
pub struct Pdf;

pub const MAX_LEN: u64 = 0x1000_0000;

/// "%PDF-"
pub open spec fn header_tag() -> Seq<u8> {
    seq![0x25u8, 0x50u8, 0x44u8, 0x46u8, 0x2Du8]
}

/// "%%EOF"
pub open spec fn eof_tag() -> Seq<u8> {
    seq![0x25u8, 0x25u8, 0x45u8, 0x4Fu8, 0x46u8]
}

/// Where the window of a PDF that starts at `start` ends: at the next
/// header, or at the limit.
pub open spec fn window_end(d: Seq<u8>, start: int, limit: int) -> int {
    match first_at(d, header_tag(), start + 5, limit) {
        Some(i) => i,
        None => limit,
    }
}

/// The length of the line end at `p`, if there is one below `limit`: `\n`,
/// `\r\n` or `\r`.
pub open spec fn newline_len(d: Seq<u8>, limit: int, p: int) -> int {
    if p < limit && d[p] == 0x0D {
        if p + 1 < limit && d[p + 1] == 0x0A {
            2
        } else {
            1
        }
    } else if p < limit && d[p] == 0x0A {
        1
    } else {
        0
    }
}

impl Carver for Pdf {
    open spec fn signature(&self) -> Signature {
        Signature {
            name: "pdf"@,
            extension: "pdf"@,
            magics: seq![header_tag()],
            magic_offset: 0,
            max_len: MAX_LEN as int,
        }
    }

    open spec fn measured(&self, d: Seq<u8>, start: int) -> Measure {
        let limit = smaller(start + MAX_LEN, d.len() as int);
        match last_at(d, eof_tag(), start, window_end(d, start, limit)) {
            Some(i) => Some((i + 5 + newline_len(d, limit, i + 5) - start, "pdf"@)),
            None => None,
        }
    }

    fn spec(&self) -> (s: CarverSpec) {
        let s = CarverSpec {
            name: "pdf",
            extension: "pdf",
            magics: &[&[0x25, 0x50, 0x44, 0x46, 0x2D]],
            magic_offset: 0,
            max_len: MAX_LEN,
        };
        assert(s.magics@[0]@ =~= header_tag());
        assert(s@ =~= self.signature());
        s
    }

    fn measure<R: ReadAt>(&self, r: &mut R, start: u64) -> (res: io::Result<Option<Measured>>) {
        let ghost d = r.contents();
        let total: u64 = r.total_len();
        let limit: u64 = search_limit(start, MAX_LEN, total);
        let header: [u8; 5] = [0x25, 0x50, 0x44, 0x46, 0x2D];
        let eof: [u8; 5] = [0x25, 0x25, 0x45, 0x4F, 0x46];
        proof {
            assert(header@ =~= header_tag());
            assert(eof@ =~= eof_tag());
            lemma_first_at_in_range(d, header_tag(), start + 5, limit as int);
        }
        // Window ends where the next PDF begins.
        let window: u64 = match find_first(r, &header, start + 5, limit) {
            Ok(Some(i)) => i,
            Ok(None) => limit,
            Err(e) => {
                return Err(e);
            },
        };
        proof {
            lemma_last_at_in_range(d, eof_tag(), start as int, window as int);
        }
        let end: u64 = match find_last(r, &eof, start, window) {
            Ok(Some(i)) => i + 5,
            Ok(None) => {
                return Ok(None);
            },
            Err(e) => {
                return Err(e);
            },
        };
        // Include the customary trailing newline (\n or \r\n).
        let want: usize = if limit - end < 2 {
            (limit - end) as usize
        } else {
            2
        };
        let tail: Vec<u8> = match piece_at(r, end, want) {
            Ok(v) => v,
            Err(e) => {
                return Err(e);
            },
        };
        let n: usize = tail.len();
        proof {
            if n >= 1 {
                assert(tail@[0] == d[end as int]);
            }
            if n >= 2 {
                assert(tail@[1] == d[end + 1]);
            }
        }
        let line: u64 = if n >= 1 && tail[0] == 0x0D {
            if n >= 2 && tail[1] == 0x0A {
                2
            } else {
                1
            }
        } else if n >= 1 && tail[0] == 0x0A {
            1
        } else {
            0
        };
        Ok(Some(Measured { len: end + line - start, extension: "pdf" }))
    }
}

} // verus!
