//! GIF carver: exact-length walk of the block structure: header, logical
//! screen descriptor (+ global color table), then image descriptors /
//! extensions with sub-block chains, ending at the 0x3B trailer.

use crate::carve::bytes::{holds, room, search_limit, smaller};
use crate::carve::carver::{
    bytes_at, Carver, CarverSpec, MAX_INPUT, Measure, Measured, ReadAt, Signature,
};
use std::io;
use vstd::arithmetic::power2::pow2;
use vstd::prelude::*;

verus! {

#[derive(Clone, Copy)]
pub struct Gif;

pub const MAX_LEN: u64 = 0x1000_0000;

/// The length of the color table that a flags byte announces: none without
/// the top bit, else three bytes for each of `2^(n + 1)` colors, where `n`
/// is in the low three bits.
pub open spec fn table_len(flags: u8) -> int {
    if flags >= 0x80 {
        (3 * pow2((flags % 8 + 1) as nat)) as int
    } else {
        0
    }
}

/// Where the chain of data sub-blocks at `p` ends: each is a length byte
/// and data, and an empty one ends the chain.
pub open spec fn subblocks_end(d: Seq<u8>, p: int, limit: int) -> Option<int>
    decreases room(p, limit),
{
    if p >= limit {
        None
    } else if d[p] == 0 {
        Some(p + 1)
    } else {
        subblocks_end(d, p + 1 + d[p], limit)
    }
}

/// Where the block at `p`, an image or an extension, ends.
pub open spec fn block_end(d: Seq<u8>, p: int, limit: int) -> Option<int> {
    if d[p] == 0x2C && holds(d, p + 1, 9) {
        // descriptor, color table, LZW minimum code size, sub-blocks
        subblocks_end(d, p + 11 + table_len(d[p + 9]), limit)
    } else if d[p] == 0x21 {
        // label, sub-blocks
        subblocks_end(d, p + 2, limit)
    } else {
        None
    }
}

/// The end of the sub-blocks lies behind their start.
proof fn lemma_subblocks_advance(d: Seq<u8>, p: int, limit: int)
    ensures
        subblocks_end(d, p, limit) matches Some(e) ==> p < e <= limit + 1,
    decreases room(p, limit),
{
    if p < limit && d[p] != 0 {
        lemma_subblocks_advance(d, p + 1 + d[p], limit);
    }
}

/// The measure of a file whose blocks were followed up to `pos`.
pub open spec fn walk(d: Seq<u8>, start: int, limit: int, pos: int, seen_image: bool) -> Measure
    decreases room(pos, limit),
{
    if pos >= limit {
        None
    } else if d[pos] == 0x3B {
        // trailer: end of file
        if seen_image {
            Some((pos + 1 - start, "gif"@))
        } else {
            None
        }
    } else {
        match block_end(d, pos, limit) {
            Some(next) if next > pos => walk(
                d,
                start,
                limit,
                next,
                seen_image || d[pos] == 0x2C,
            ),
            _ => None,
        }
    }
}

fn color_table(flags: u8) -> (n: u64)
    ensures
        n == table_len(flags),
        n <= 768,
{
    proof {
        vstd::arithmetic::power2::lemma2_to64();
    }
    if flags < 0x80 {
        return 0;
    }
    match flags % 8 {
        0 => 6,
        1 => 12,
        2 => 24,
        3 => 48,
        4 => 96,
        5 => 192,
        6 => 384,
        _ => 768,
    }
}

/// Skip a chain of data sub-blocks (length byte + data, 0 terminates).
fn skip_subblocks<R: ReadAt>(r: &mut R, from: u64, limit: u64) -> (res: io::Result<Option<u64>>)
    requires
        old(r).contents().len() <= MAX_INPUT,
        limit <= old(r).contents().len(),
    ensures
        final(r).contents() == old(r).contents(),
        old(r).reliable() ==> final(r).reliable() && res is Ok,
        match res {
            Ok(Some(e)) => subblocks_end(old(r).contents(), from as int, limit as int) == Some(
                e as int,
            ),
            Ok(None) => subblocks_end(old(r).contents(), from as int, limit as int) is None,
            Err(_) => true,
        },
{
    let ghost d = r.contents();
    let mut pos: u64 = from;
    while pos < limit
        invariant
            d == old(r).contents(),
            r.contents() == d,
            old(r).reliable() ==> r.reliable(),
            limit <= d.len() <= MAX_INPUT,
            subblocks_end(d, from as int, limit as int) == subblocks_end(
                d,
                pos as int,
                limit as int,
            ),
        decreases room(pos as int, limit as int),
    {
        let len: Vec<u8> = match bytes_at(r, pos, 1) {
            Ok(Some(v)) => v,
            Ok(None) => {
                return Ok(None);
            },
            Err(e) => {
                return Err(e);
            },
        };
        if len[0] == 0 {
            return Ok(Some(pos + 1));
        }
        pos = pos + 1 + len[0] as u64;
    }
    Ok(None)
}

impl Carver for Gif {
    open spec fn signature(&self) -> Signature {
        Signature {
            name: "gif"@,
            extension: "gif"@,
            magics: seq![
                seq![0x47u8, 0x49u8, 0x46u8, 0x38u8, 0x37u8, 0x61u8],
                seq![0x47u8, 0x49u8, 0x46u8, 0x38u8, 0x39u8, 0x61u8],
            ],
            magic_offset: 0,
            max_len: MAX_LEN as int,
        }
    }

    /// The blocks follow the header of 6 bytes, the logical screen
    /// descriptor of 7 and the global color table.
    open spec fn measured(&self, d: Seq<u8>, start: int) -> Measure {
        if holds(d, start + 6, 7) {
            walk(
                d,
                start,
                smaller(start + MAX_LEN, d.len() as int),
                start + 13 + table_len(d[start + 10]),
                false,
            )
        } else {
            None
        }
    }

    fn spec(&self) -> (s: CarverSpec) {
        let s = CarverSpec {
            name: "gif",
            extension: "gif",
            magics: &[
                &[0x47, 0x49, 0x46, 0x38, 0x37, 0x61],
                &[0x47, 0x49, 0x46, 0x38, 0x39, 0x61],
            ],
            magic_offset: 0,
            max_len: MAX_LEN,
        };
        assert(s.magics@[0]@ =~= self.signature().magics[0]);
        assert(s.magics@[1]@ =~= self.signature().magics[1]);
        assert(s@ =~= self.signature());
        s
    }

    fn measure<R: ReadAt>(&self, r: &mut R, start: u64) -> (res: io::Result<Option<Measured>>) {
        let ghost d = r.contents();
        let total: u64 = r.total_len();
        let limit: u64 = search_limit(start, MAX_LEN, total);
        let lsd: Vec<u8> = match bytes_at(r, start + 6, 7) {
            Ok(Some(v)) => v,
            Ok(None) => {
                return Ok(None);
            },
            Err(e) => {
                return Err(e);
            },
        };
        let mut pos: u64 = start + 13 + color_table(lsd[4]);
        let mut seen_image: bool = false;
        while pos < limit
            invariant
                d == old(r).contents(),
                r.contents() == d,
                old(r).reliable() ==> r.reliable(),
                total == d.len(),
                total <= MAX_INPUT,
                start <= MAX_INPUT,
                limit == smaller(start + MAX_LEN, total as int),
                start <= pos,
                self.measured(d, start as int) == walk(
                    d,
                    start as int,
                    limit as int,
                    pos as int,
                    seen_image,
                ),
            decreases room(pos as int, limit as int),
        {
            let ghost at = pos as int;
            let b: Vec<u8> = match bytes_at(r, pos, 1) {
                Ok(Some(v)) => v,
                Ok(None) => {
                    return Ok(None);
                },
                Err(e) => {
                    return Err(e);
                },
            };
            assert(b[0] == d[at]);
            pos = pos + 1;
            if b[0] == 0x3B {
                // Trailer: end of file.
                if !seen_image {
                    return Ok(None);
                }
                return Ok(Some(Measured { len: pos - start, extension: "gif" }));
            } else if b[0] == 0x2C {
                // Image descriptor: 9 bytes, optional local color table,
                // LZW min code size, sub-blocks.
                let desc: Vec<u8> = match bytes_at(r, pos, 9) {
                    Ok(Some(v)) => v,
                    Ok(None) => {
                        return Ok(None);
                    },
                    Err(e) => {
                        return Err(e);
                    },
                };
                pos = pos + 9 + color_table(desc[8]) + 1;
                seen_image = true;
            } else if b[0] == 0x21 {
                // Extension: label byte then sub-blocks.
                pos = pos + 1;
            } else {
                // structure broken
                return Ok(None);
            }
            proof {
                lemma_subblocks_advance(d, pos as int, limit as int);
            }
            match skip_subblocks(r, pos, limit) {
                Ok(Some(p)) => {
                    pos = p;
                },
                Ok(None) => {
                    return Ok(None);
                },
                Err(e) => {
                    return Err(e);
                },
            }
        }
        Ok(None)
    }
}

} // verus!
