//! Matroska / WebM carver (also the usual home of VP9/AV1 video).
//! EBML gives every element a declared size: the file is the EBML
//! header element plus the Segment element, both measured exactly via
//! EBML variable-length integers.

use crate::carve::bytes::{be32, get_be32, holds, search_limit, smaller};
use crate::carve::carver::{bytes_at, Carver, CarverSpec, Measure, Measured, ReadAt, Signature};
use crate::carve::search::{find_first, first_at};
use std::io;
use vstd::arithmetic::power2::pow2;
use vstd::prelude::*;

verus! {

#[derive(Clone, Copy)]
pub struct Matroska;

pub const MAX_LEN: u64 = 0x10_0000_0000;

/// The largest header that is looked at.
pub const MAX_HEADER: u64 = 4096;

/// The identifier of the Segment element.
pub const SEGMENT_ID: u32 = 0x18538067;

/// "webm"
pub open spec fn webm_tag() -> Seq<u8> {
    seq![0x77u8, 0x65u8, 0x62u8, 0x6Du8]
}

/// "matroska"
pub open spec fn matroska_tag() -> Seq<u8> {
    seq![0x6Du8, 0x61u8, 0x74u8, 0x72u8, 0x6Fu8, 0x73u8, 0x6Bu8, 0x61u8]
}

/// The number of bytes of a variable-length integer: one more than the
/// number of leading zero bits of its first byte.
pub open spec fn vint_len(first: u8) -> int {
    if first >= 0x80 {
        1
    } else if first >= 0x40 {
        2
    } else if first >= 0x20 {
        3
    } else if first >= 0x10 {
        4
    } else if first >= 0x08 {
        5
    } else if first >= 0x04 {
        6
    } else if first >= 0x02 {
        7
    } else {
        8
    }
}

/// The first `k` bytes of the variable-length integer of `n` bytes at `p`,
/// as a big-endian number without the bit that marks the length.
pub open spec fn vint_value(d: Seq<u8>, p: int, n: int, k: int) -> int
    decreases k,
{
    if k <= 1 {
        d[p] - pow2((8 - n) as nat)
    } else {
        0x100 * vint_value(d, p, n, k - 1) + d[p + k - 1]
    }
}

/// A variable-length integer: its value, or nothing where all bits of the
/// value are set, which means "unknown"; and the number of its bytes.
pub type Vint = (Option<int>, int);

/// The variable-length integer at `p`.
pub open spec fn vint_at(d: Seq<u8>, p: int) -> Option<Vint> {
    let n = vint_len(d[p]);
    let value = vint_value(d, p, n, n);
    if !holds(d, p, 1) || d[p] == 0 || !holds(d, p, n) {
        None
    } else if value == pow2((7 * n) as nat) - 1 {
        Some((None, n))
    } else {
        Some((Some(value), n))
    }
}

/// The extension for a file whose header element holds `n` bytes at `p`.
pub open spec fn doctype(d: Seq<u8>, p: int, n: int) -> Option<Seq<char>> {
    let end = smaller(p + n, d.len() as int);
    if first_at(d, webm_tag(), p, end) is Some {
        Some("webm"@)
    } else if first_at(d, matroska_tag(), p, end) is Some {
        Some("mkv"@)
    } else {
        None
    }
}

/// Parse an EBML vint at `pos`: returns (value, encoded_len). For sizes,
/// an all-ones value means "unknown size" and is returned as None.
fn vint<R: ReadAt>(r: &mut R, pos: u64) -> (res: io::Result<Option<(Option<u64>, u64)>>)
    ensures
        final(r).contents() == old(r).contents(),
        old(r).reliable() ==> final(r).reliable() && res is Ok,
        match res {
            Ok(Some((Some(v), n))) => vint_at(old(r).contents(), pos as int) == Some(
                (Some(v as int), n as int),
            ) && v < 0x100_0000_0000_0000 && 1 <= n <= 8,
            Ok(Some((None, n))) => vint_at(old(r).contents(), pos as int) == Some(
                (None::<int>, n as int),
            ) && 1 <= n <= 8,
            Ok(None) => vint_at(old(r).contents(), pos as int) is None,
            Err(_) => true,
        },
{
    let ghost d = r.contents();
    let ghost p = pos as int;
    let first: Vec<u8> = match bytes_at(r, pos, 1) {
        Ok(Some(v)) => v,
        Ok(None) => {
            return Ok(None);
        },
        Err(e) => {
            return Err(e);
        },
    };
    let b: u8 = first[0];
    assert(b == d[p]);
    if b == 0 {
        return Ok(None);
    }
    proof {
        vstd::arithmetic::power2::lemma2_to64();
        vstd::arithmetic::power2::lemma2_to64_rest();
    }
    let (n, marker, all_ones): (usize, u8, u64) = if b >= 0x80 {
        (1, 0x80, 0x7F)
    } else if b >= 0x40 {
        (2, 0x40, 0x3FFF)
    } else if b >= 0x20 {
        (3, 0x20, 0x1F_FFFF)
    } else if b >= 0x10 {
        (4, 0x10, 0xFFF_FFFF)
    } else if b >= 0x08 {
        (5, 0x08, 0x7_FFFF_FFFF)
    } else if b >= 0x04 {
        (6, 0x04, 0x3FF_FFFF_FFFF)
    } else if b >= 0x02 {
        (7, 0x02, 0x1_FFFF_FFFF_FFFF)
    } else {
        (8, 0x01, 0xFF_FFFF_FFFF_FFFF)
    };
    assert(n == vint_len(b) && marker == pow2((8 - n) as nat));
    assert(all_ones == pow2((7 * n) as nat) - 1);
    let bytes: Vec<u8> = match bytes_at(r, pos, n) {
        Ok(Some(v)) => v,
        Ok(None) => {
            return Ok(None);
        },
        Err(e) => {
            return Err(e);
        },
    };
    assert(bytes@[0] == d[p]);
    let mut value: u64 = (b - marker) as u64;
    let mut k: usize = 1;
    while k < n
        invariant
            1 <= k <= n <= 8,
            bytes@ == d.subrange(p, p + n),
            holds(d, p, n as int),
            value == vint_value(d, p, n as int, k as int),
            value < pow2((8 * k - n) as nat),
        decreases n - k,
    {
        proof {
            vstd::arithmetic::power2::lemma_pow2_adds((8 * k - n) as nat, 8);
            vstd::arithmetic::power2::lemma2_to64();
            vstd::arithmetic::power2::lemma2_to64_rest();
            if 8 * k - n < 48 {
                vstd::arithmetic::power2::lemma_pow2_strictly_increases((8 * k - n) as nat, 48);
            }
        }
        value = 0x100 * value + bytes[k] as u64;
        k = k + 1;
    }
    proof {
        if 7 * n < 56 {
            vstd::arithmetic::power2::lemma_pow2_strictly_increases((7 * n) as nat, 56);
        }
    }
    if value == all_ones {
        Ok(Some((None, n as u64)))
    } else {
        Ok(Some((Some(value), n as u64)))
    }
}

impl Carver for Matroska {
    open spec fn signature(&self) -> Signature {
        Signature {
            name: "mkv"@,
            extension: "mkv"@,
            magics: seq![seq![0x1Au8, 0x45u8, 0xDFu8, 0xA3u8]],
            magic_offset: 0,
            max_len: MAX_LEN as int,
        }
    }

    /// The header element and the Segment element after it, both of known
    /// size.
    open spec fn measured(&self, d: Seq<u8>, start: int) -> Measure {
        match vint_at(d, start + 4) {
            Some((Some(size), n)) => {
                let segment = start + 4 + n + size;
                if size > MAX_HEADER || !holds(d, segment, 4) || be32(d, segment) != SEGMENT_ID {
                    None
                } else {
                    match (doctype(d, start + 4 + n, size), vint_at(d, segment + 4)) {
                        (Some(extension), Some((Some(len), k))) => Some(
                            (
                                smaller(segment + 4 + k + len - start, MAX_LEN as int),
                                extension,
                            ),
                        ),
                        _ => None,
                    }
                }
            },
            _ => None,
        }
    }

    fn spec(&self) -> (s: CarverSpec) {
        let s = CarverSpec {
            name: "mkv",
            extension: "mkv",
            magics: &[&[0x1A, 0x45, 0xDF, 0xA3]],
            magic_offset: 0,
            max_len: MAX_LEN,
        };
        assert(s.magics@[0]@ =~= self.signature().magics[0]);
        assert(s@ =~= self.signature());
        s
    }

    fn measure<R: ReadAt>(&self, r: &mut R, start: u64) -> (res: io::Result<Option<Measured>>) {
        let ghost d = r.contents();
        let total: u64 = r.total_len();
        // EBML header element: ID (4 bytes, the magic) + size + payload.
        let (size, n): (u64, u64) = match vint(r, start + 4) {
            Ok(Some((Some(size), n))) => (size, n),
            Ok(_) => {
                return Ok(None);
            },
            Err(e) => {
                return Err(e);
            },
        };
        if size > MAX_HEADER {
            return Ok(None);
        }
        let payload: u64 = start + 4 + n;
        let end: u64 = search_limit(payload, size, total);
        let webm: [u8; 4] = [0x77, 0x65, 0x62, 0x6D];
        let matroska: [u8; 8] = [0x6D, 0x61, 0x74, 0x72, 0x6F, 0x73, 0x6B, 0x61];
        proof {
            assert(webm@ =~= webm_tag());
            assert(matroska@ =~= matroska_tag());
        }
        let is_webm: bool = match find_first(r, &webm, payload, end) {
            Ok(found) => found.is_some(),
            Err(e) => {
                return Err(e);
            },
        };
        let extension: &'static str = if is_webm {
            "webm"
        } else {
            match find_first(r, &matroska, payload, end) {
                Ok(Some(_)) => "mkv",
                Ok(None) => {
                    // EBML but not a Matroska family doctype
                    return Ok(None);
                },
                Err(e) => {
                    return Err(e);
                },
            }
        };
        // Segment element: ID + size.
        let segment: u64 = payload + size;
        match bytes_at(r, segment, 4) {
            Ok(Some(id)) => {
                if get_be32(&id, 0) != SEGMENT_ID {
                    return Ok(None);
                }
            },
            Ok(None) => {
                return Ok(None);
            },
            Err(e) => {
                return Err(e);
            },
        }
        match vint(r, segment + 4) {
            Ok(Some((Some(seg_size), k))) => {
                let whole: u64 = segment + 4 + k + seg_size - start;
                let len: u64 = if whole < MAX_LEN {
                    whole
                } else {
                    MAX_LEN
                };
                Ok(Some(Measured { len, extension }))
            },
            // Unknown-size segment (live streaming): end is not declared,
            // don't guess.
            Ok(_) => Ok(None),
            Err(e) => Err(e),
        }
    }
}

} // verus!
