//! PNG carver: exact-length structure walk over the chunk chain
//! (length + type + data + crc) from IHDR to IEND. If the chain breaks
//! after image data was seen, the valid prefix is still carved so a
//! damaged PNG is recovered partially instead of dropped.

use crate::carve::bytes::{be32, get_be32, is_at, room, search_limit, smaller, stands_at};
use crate::carve::carver::{
    bytes_at, is_measure, Carver, CarverSpec, MAX_INPUT, Measure, Measured, ReadAt, Signature,
};
use std::io;
use vstd::prelude::*;

verus! {

#[derive(Clone, Copy)]
pub struct Png;

pub const MAX_LEN: u64 = 0x1000_0000;

/// "IHDR"
pub open spec fn ihdr_tag() -> Seq<u8> {
    seq![0x49u8, 0x48u8, 0x44u8, 0x52u8]
}

/// "IDAT"
pub open spec fn idat_tag() -> Seq<u8> {
    seq![0x49u8, 0x44u8, 0x41u8, 0x54u8]
}

/// "IEND"
pub open spec fn iend_tag() -> Seq<u8> {
    seq![0x49u8, 0x45u8, 0x4Eu8, 0x44u8]
}

pub open spec fn is_letter(b: u8) -> bool {
    0x41 <= b <= 0x5A || 0x61 <= b <= 0x7A
}

/// A chunk header with a valid length and type stands at `p`.
pub open spec fn is_chunk(d: Seq<u8>, p: int) -> bool {
    &&& be32(d, p) <= 0x7FFF_FFFF
    &&& is_letter(d[p + 4])
    &&& is_letter(d[p + 5])
    &&& is_letter(d[p + 6])
    &&& is_letter(d[p + 7])
}

/// The chain of a file that starts at `start` broke at `pos`: what is there
/// is a file if it holds image data.
pub open spec fn prefix(start: int, limit: int, pos: int, seen_idat: bool) -> Measure {
    if seen_idat {
        Some((smaller(pos, limit) - start, "png"@))
    } else {
        None
    }
}

/// The measure of a file whose chunk chain was followed up to `pos`.
pub open spec fn walk(d: Seq<u8>, start: int, limit: int, pos: int, seen_idat: bool) -> Measure
    decreases room(pos, limit),
{
    let next = pos + 12 + be32(d, pos);
    let seen = seen_idat || stands_at(d, pos + 4, idat_tag());
    if pos + 8 > limit || !is_chunk(d, pos) {
        prefix(start, limit, pos, seen_idat)
    } else if pos == start + 8 && !(stands_at(d, pos + 4, ihdr_tag()) && be32(d, pos) == 13) {
        None
    } else if next > limit {
        prefix(start, limit, next, seen)
    } else if stands_at(d, pos + 4, iend_tag()) {
        Some((next - start, "png"@))
    } else {
        walk(d, start, limit, next, seen)
    }
}

fn letter(b: u8) -> (r: bool)
    ensures
        r == is_letter(b),
{
    (0x41 <= b && b <= 0x5A) || (0x61 <= b && b <= 0x7A)
}

/// The valid prefix of a file whose chunk chain broke at `pos`.
fn carve_prefix(start: u64, limit: u64, pos: u64, seen_idat: bool) -> (m: Option<Measured>)
    requires
        seen_idat ==> start <= pos && start <= limit,
    ensures
        is_measure(m, prefix(start as int, limit as int, pos as int, seen_idat)),
{
    if !seen_idat {
        return None;
    }
    let end: u64 = if pos < limit {
        pos
    } else {
        limit
    };
    Some(Measured { len: end - start, extension: "png" })
}

impl Carver for Png {
    open spec fn signature(&self) -> Signature {
        Signature {
            name: "png"@,
            extension: "png"@,
            magics: seq![seq![0x89u8, 0x50u8, 0x4Eu8, 0x47u8, 0x0Du8, 0x0Au8, 0x1Au8, 0x0Au8]],
            magic_offset: 0,
            max_len: MAX_LEN as int,
        }
    }

    open spec fn measured(&self, d: Seq<u8>, start: int) -> Measure {
        walk(d, start, smaller(start + MAX_LEN, d.len() as int), start + 8, false)
    }

    fn spec(&self) -> (s: CarverSpec) {
        let s = CarverSpec {
            name: "png",
            extension: "png",
            magics: &[&[0x89, 0x50, 0x4E, 0x47, 0x0D, 0x0A, 0x1A, 0x0A]],
            magic_offset: 0,
            max_len: MAX_LEN,
        };
        assert(s.magics@[0]@ =~= self.signature().magics[0]);
        assert(s@ =~= self.signature());
        s
    }

    fn measure<R: ReadAt>(&self, r: &mut R, start: u64) -> (res: io::Result<Option<Measured>>) {
        let ghost d = r.contents();
        let total: u64 = r.total_len();
        let limit: u64 = search_limit(start, MAX_LEN, total);
        let ihdr: [u8; 4] = [0x49, 0x48, 0x44, 0x52];
        let idat: [u8; 4] = [0x49, 0x44, 0x41, 0x54];
        let iend: [u8; 4] = [0x49, 0x45, 0x4E, 0x44];
        proof {
            assert(ihdr@ =~= ihdr_tag());
            assert(idat@ =~= idat_tag());
            assert(iend@ =~= iend_tag());
        }
        let mut pos: u64 = start + 8;
        let mut seen_idat: bool = false;
        while pos + 8 <= limit
            invariant
                d == old(r).contents(),
                r.contents() == d,
                old(r).reliable() ==> r.reliable(),
                total == d.len(),
                total <= MAX_INPUT,
                start <= MAX_INPUT,
                limit == smaller(start + MAX_LEN, total as int),
                ihdr@ == ihdr_tag(),
                idat@ == idat_tag(),
                iend@ == iend_tag(),
                start + 8 <= pos,
                pos <= limit || pos == start + 8,
                seen_idat ==> pos > start + 8,
                self.measured(d, start as int) == walk(
                    d,
                    start as int,
                    limit as int,
                    pos as int,
                    seen_idat,
                ),
            decreases room(pos as int, limit as int),
        {
            let hdr: Vec<u8> = match bytes_at(r, pos, 8) {
                Ok(Some(v)) => v,
                Ok(None) => {
                    return Ok(None);
                },
                Err(e) => {
                    return Err(e);
                },
            };
            proof {
                assert(hdr@.subrange(4, 8) =~= d.subrange(pos + 4, pos + 8));
            }
            let len: u64 = get_be32(&hdr, 0) as u64;
            if len > 0x7FFF_FFFF || !letter(hdr[4]) || !letter(hdr[5]) || !letter(hdr[6])
                || !letter(hdr[7]) {
                return Ok(carve_prefix(start, limit, pos, seen_idat));
            }
            if pos == start + 8 && (!is_at(&hdr, 4, &ihdr) || len != 13) {
                return Ok(None);
            }
            if is_at(&hdr, 4, &idat) {
                seen_idat = true;
            }
            pos = pos + 12 + len;
            if pos > limit {
                return Ok(carve_prefix(start, limit, pos, seen_idat));
            }
            if is_at(&hdr, 4, &iend) {
                return Ok(Some(Measured { len: pos - start, extension: "png" }));
            }
        }
        // Chain broke before IEND: carve the valid prefix if it holds data.
        Ok(carve_prefix(start, limit, pos, seen_idat))
    }
}

} // verus!
