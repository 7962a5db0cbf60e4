//! BMP carver: the file header declares the exact total size at offset 2
//! (little-endian). The 2-byte "BM" magic is weak, so the header is
//! validated strictly before trusting it.

use crate::carve::bytes::{get_le32, holds, le32};
use crate::carve::carver::{bytes_at, Carver, CarverSpec, Measure, Measured, ReadAt, Signature};
use std::io;
use vstd::prelude::*;

verus! {

#[derive(Clone, Copy)]
pub struct Bmp;

pub const MAX_LEN: u64 = 0x1000_0000;

/// A size of one of the known headers, from the core header to version 5.
pub open spec fn is_dib_size(n: int) -> bool {
    n == 12 || n == 40 || n == 52 || n == 56 || n == 64 || n == 108 || n == 124
}

impl Carver for Bmp {
    open spec fn signature(&self) -> Signature {
        Signature {
            name: "bmp"@,
            extension: "bmp"@,
            magics: seq![seq![0x42u8, 0x4Du8]],
            magic_offset: 0,
            max_len: MAX_LEN as int,
        }
    }

    /// The declared size, if the headers fit in it before the pixel data.
    open spec fn measured(&self, d: Seq<u8>, start: int) -> Measure {
        let size = le32(d, start + 2);
        let data = le32(d, start + 10);
        let dib = le32(d, start + 14);
        if holds(d, start, 18) && is_dib_size(dib) && 14 + dib <= data < size <= MAX_LEN {
            Some((size, "bmp"@))
        } else {
            None
        }
    }

    fn spec(&self) -> (s: CarverSpec) {
        let s = CarverSpec {
            name: "bmp",
            extension: "bmp",
            magics: &[&[0x42, 0x4D]],
            magic_offset: 0,
            max_len: MAX_LEN,
        };
        assert(s.magics@[0]@ =~= seq![0x42u8, 0x4Du8]);
        assert(s@ =~= self.signature());
        s
    }

    fn measure<R: ReadAt>(&self, r: &mut R, start: u64) -> (res: io::Result<Option<Measured>>) {
        let hdr: Vec<u8> = match bytes_at(r, start, 18) {
            Ok(Some(v)) => v,
            Ok(None) => {
                return Ok(None);
            },
            Err(e) => {
                return Err(e);
            },
        };
        let size: u64 = get_le32(&hdr, 2) as u64;
        let data: u64 = get_le32(&hdr, 10) as u64;
        let dib: u64 = get_le32(&hdr, 14) as u64;
        let known: bool = dib == 12 || dib == 40 || dib == 52 || dib == 56 || dib == 64 || dib
            == 108 || dib == 124;
        if !known || size < 14 + dib || size > MAX_LEN || data < 14 + dib || data >= size {
            return Ok(None);
        }
        Ok(Some(Measured { len: size, extension: "bmp" }))
    }
}

} // verus!
