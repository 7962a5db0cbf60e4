//! What is recovered of the files of each format: laws that start from the
//! bytes of a file, as its format lays them out, and tell how much of the
//! input is carved.

pub mod asf;
pub mod bmp;
pub mod gif;
pub mod isobmff;
pub mod jpeg;
pub mod matroska;
pub mod mpeg;
pub mod pdf;
pub mod png;
pub mod report;
pub mod riff;
pub mod scan;
pub mod tiff;
use crate::carve::bytes::stands_at;
use crate::carve::carver::{is_measure, BuiltinCarver, Carver, Measure, Measured};
use crate::carve::{has_magic, hit};
use vstd::prelude::*;

verus! {

/// The bytes `a`, `b`, `c` and `e` follow each other from `p` on.
pub open spec fn four(d: Seq<u8>, p: int, a: u8, b: u8, c: u8, e: u8) -> bool {
    0 <= p && p + 4 <= d.len() && d[p] == a && d[p + 1] == b && d[p + 2] == c && d[p + 3] == e
}

/// The number of two bytes at `p`, the high one first.
pub open spec fn big16(d: Seq<u8>, p: int) -> int {
    d[p] * 256 + d[p + 1]
}

/// The number of four bytes at `p`, the highest first.
pub open spec fn big32(d: Seq<u8>, p: int) -> int {
    d[p] * 16777216 + d[p + 1] * 65536 + d[p + 2] * 256 + d[p + 3]
}

/// The number of two bytes at `p`, the low one first.
pub open spec fn little16(d: Seq<u8>, p: int) -> int {
    d[p] + d[p + 1] * 256
}

/// The number of four bytes at `p`, the lowest first.
pub open spec fn little32(d: Seq<u8>, p: int) -> int {
    d[p] + d[p + 1] * 256 + d[p + 2] * 65536 + d[p + 3] * 16777216
}

/// Both the format itself and the scan, which looks for the signature
/// first, give the measure `m` at `start`.
pub open spec fn carved(c: BuiltinCarver, d: Seq<u8>, start: int, m: Measure) -> bool {
    c.measured(d, start) == m && hit(c, d, start) == m
}

/// What a format gives is its measure: length and extension, or nothing.
pub proof fn lemma_measure_is_given(r: Option<Measured>, m: Measure)
    requires
        is_measure(r, m),
    ensures
        r is Some <==> m is Some,
        r matches Some(x) ==> x.len == (m->0).0 && x.extension@ == (m->0).1,
{
}

/// Four bytes one by one are a word of four bytes.
pub proof fn lemma_four(d: Seq<u8>, p: int, a: u8, b: u8, c: u8, e: u8)
    ensures
        four(d, p, a, b, c, e) == stands_at(d, p, seq![a, b, c, e]),
{
    let w = seq![a, b, c, e];
    if four(d, p, a, b, c, e) {
        assert(d.subrange(p, p + 4) =~= w);
    }
    if stands_at(d, p, w) {
        let s = d.subrange(p, p + 4);
        assert(s[0] == d[p] && s[1] == d[p + 1] && s[2] == d[p + 2] && s[3] == d[p + 3]);
    }
}

/// A word stands where its bytes do, one by one.
pub proof fn lemma_word(d: Seq<u8>, p: int, w: Seq<u8>)
    ensures
        stands_at(d, p, w) <==> 0 <= p && p + w.len() <= d.len() && forall|i: int|
            0 <= i < w.len() ==> d[p + i] == #[trigger] w[i],
{
    if 0 <= p && p + w.len() <= d.len() {
        let s = d.subrange(p, p + w.len());
        if forall|i: int| 0 <= i < w.len() ==> d[p + i] == #[trigger] w[i] {
            assert(s =~= w);
        }
        if stands_at(d, p, w) {
            assert forall|i: int| 0 <= i < w.len() implies d[p + i] == #[trigger] w[i] by {
                assert(s[i] == d[p + i]);
            }
        }
    }
}

/// A signature that stands where the format has it.
pub proof fn lemma_magic(c: BuiltinCarver, d: Seq<u8>, start: int, k: int)
    requires
        0 <= k < c.signature().magics.len(),
        stands_at(d, start + c.signature().magic_offset, c.signature().magics[k]),
    ensures
        has_magic(c.signature(), d, start),
{
}

} // verus!
