//! Matroska and WebM videos.

use super::{carved, four, lemma_four, lemma_magic, lemma_word};
use crate::carve::bytes::stands_at;
use crate::carve::carver::{BuiltinCarver, Carver};
use crate::carve::formats::matroska::{
    doctype, matroska_tag, vint_at, vint_len, vint_value, webm_tag, Matroska,
};
use crate::carve::search::first_at;
use vstd::arithmetic::power2::{lemma2_to64, lemma2_to64_rest, pow2};
use vstd::prelude::*;

verus! {

/// The number of `n` bytes at `p`, the highest first.
pub open spec fn number(d: Seq<u8>, p: int, n: int) -> int
    decreases n,
{
    if n <= 0 {
        0
    } else {
        256 * number(d, p, n - 1) + d[p + n - 1]
    }
}

/// The `n` bytes at `p` are the variable-length integer of `v`: of the `8n`
/// bits the first `n` are zeros and a one, and the others are `v`.
pub open spec fn encodes(d: Seq<u8>, p: int, n: int, v: int) -> bool {
    &&& 1 <= n <= 8
    &&& 0 <= p
    &&& p + n <= d.len()
    &&& 0 <= v < pow2((7 * n) as nat)
    &&& number(d, p, n) == pow2((7 * n) as nat) + v
}

/// All bits of the value are ones: the size is not known.
pub open spec fn is_unknown(n: int, v: int) -> bool {
    v == pow2((7 * n) as nat) - 1
}

/// "webm" is somewhere in the bytes from `a` up to `b`.
pub open spec fn has_webm(d: Seq<u8>, a: int, b: int) -> bool {
    exists|i: int| a <= i && i + 4 <= b && #[trigger] four(d, i, 0x77, 0x65, 0x62, 0x6D)
}

/// "matroska" is at `i`.
pub open spec fn matroska_at(d: Seq<u8>, i: int) -> bool {
    four(d, i, 0x6D, 0x61, 0x74, 0x72) && four(d, i + 4, 0x6F, 0x73, 0x6B, 0x61)
}

/// "matroska" is somewhere in the bytes from `a` up to `b`.
pub open spec fn has_matroska(d: Seq<u8>, a: int, b: int) -> bool {
    exists|i: int| a <= i && i + 8 <= b && #[trigger] matroska_at(d, i)
}

/// A video starts at `start`: the identifier of an EBML header, its size `s`
/// in `n` bytes and `s` bytes of header; then the identifier of a Segment
/// and its size `l` in `k` bytes.
pub open spec fn video(d: Seq<u8>, start: int, n: int, s: int, k: int, l: int) -> bool {
    &&& four(d, start, 0x1A, 0x45, 0xDF, 0xA3)
    &&& encodes(d, start + 4, n, s)
    &&& four(d, start + 4 + n + s, 0x18, 0x53, 0x80, 0x67)
    &&& encodes(d, start + 8 + n + s, k, l)
}

#[verifier::rlimit(40)]
proof fn lemma_vint(d: Seq<u8>, p: int, n: int, v: int)
    requires
        encodes(d, p, n, v),
    ensures
        vint_at(d, p) == Some(
            (
                if is_unknown(n, v) {
                    None
                } else {
                    Some(v)
                },
                n,
            ),
        ),
{
    lemma2_to64();
    lemma2_to64_rest();
    reveal_with_fuel(number, 9);
    reveal_with_fuel(vint_value, 9);
    if n == 1 {
    } else if n == 2 {
    } else if n == 3 {
    } else if n == 4 {
    } else if n == 5 {
    } else if n == 6 {
    } else if n == 7 {
    } else {
    }
}

proof fn lemma_found(d: Seq<u8>, w: Seq<u8>, a: int, b: int, i: int)
    requires
        w.len() > 0,
        a <= i,
        i + w.len() <= b,
        stands_at(d, i, w),
    ensures
        first_at(d, w, a, b) is Some,
    decreases i - a,
{
    if a < i && !stands_at(d, a, w) {
        lemma_found(d, w, a + 1, b, i);
    }
}

proof fn lemma_doctype(d: Seq<u8>, a: int, n: int)
    requires
        0 <= a,
        0 <= n,
        a + n <= d.len(),
    ensures
        has_webm(d, a, a + n) ==> doctype(d, a, n) == Some("webm"@),
        !has_webm(d, a, a + n) && has_matroska(d, a, a + n) ==> doctype(d, a, n) == Some("mkv"@),
        !has_webm(d, a, a + n) && !has_matroska(d, a, a + n) ==> doctype(d, a, n) is None,
{
    let b = a + n;
    assert forall|i: int| #[trigger] matroska_at(d, i) == stands_at(d, i, matroska_tag()) by {
        lemma_word(d, i, matroska_tag());
        let w = matroska_tag();
        if stands_at(d, i, w) {
            assert(d[i + 0] == w[0] && d[i + 1] == w[1] && d[i + 2] == w[2] && d[i + 3] == w[3]);
            assert(d[i + 4] == w[4] && d[i + 5] == w[5] && d[i + 6] == w[6] && d[i + 7] == w[7]);
        }
    }
    if has_webm(d, a, b) {
        let i = choose|i: int|
            a <= i && i + 4 <= b && #[trigger] four(d, i, 0x77, 0x65, 0x62, 0x6D);
        lemma_four(d, i, 0x77, 0x65, 0x62, 0x6D);
        lemma_found(d, webm_tag(), a, b, i);
    } else {
        if let Some(i) = first_at(d, webm_tag(), a, b) {
            crate::carve::search::lemma_first_at_in_range(d, webm_tag(), a, b);
            lemma_four(d, i, 0x77, 0x65, 0x62, 0x6D);
        }
        if has_matroska(d, a, b) {
            let i = choose|i: int| a <= i && i + 8 <= b && #[trigger] matroska_at(d, i);
            lemma_found(d, matroska_tag(), a, b, i);
        } else if let Some(i) = first_at(d, matroska_tag(), a, b) {
            crate::carve::search::lemma_first_at_in_range(d, matroska_tag(), a, b);
            assert(matroska_at(d, i));
        }
    }
}

proof fn lemma_start(d: Seq<u8>, start: int)
    requires
        four(d, start, 0x1A, 0x45, 0xDF, 0xA3),
    ensures
        crate::carve::has_magic(BuiltinCarver::Matroska(Matroska).signature(), d, start),
{
    let c = BuiltinCarver::Matroska(Matroska);
    lemma_four(d, start, 0x1A, 0x45, 0xDF, 0xA3);
    assert(start + c.signature().magic_offset == start);
    lemma_magic(c, d, start, 0);
}

/// A video is carved whole: header and Segment together, however many bytes
/// their sizes are written in. The document type in the header tells WebM
/// from Matroska, and no file is longer than 64 GiB.
pub proof fn lemma_video_is_whole(d: Seq<u8>, start: int, n: int, s: int, k: int, l: int)
    requires
        video(d, start, n, s, k, l),
        s <= 4096,
        !is_unknown(n, s),
        !is_unknown(k, l),
        has_webm(d, start + 4 + n, start + 4 + n + s) || has_matroska(
            d,
            start + 4 + n,
            start + 4 + n + s,
        ),
    ensures
        ({
            let len = 4 + n + s + 4 + k + l;
            carved(
                BuiltinCarver::Matroska(Matroska),
                d,
                start,
                Some(
                    (
                        if len <= 68719476736 {
                            len
                        } else {
                            68719476736
                        },
                        if has_webm(d, start + 4 + n, start + 4 + n + s) {
                            "webm"@
                        } else {
                            "mkv"@
                        },
                    ),
                ),
            )
        }),
{
    lemma_vint(d, start + 4, n, s);
    lemma_vint(d, start + 8 + n + s, k, l);
    lemma_doctype(d, start + 4 + n, s);
    lemma_start(d, start);
}

/// A video whose header or Segment does not tell its size is not carved,
/// nor is one with a header of more than 4096 bytes, or one that names
/// neither of the two document types.
pub proof fn lemma_unknown_video(d: Seq<u8>, start: int, n: int, s: int, k: int, l: int)
    requires
        video(d, start, n, s, k, l),
        s > 4096 || is_unknown(n, s) || is_unknown(k, l) || (!has_webm(
            d,
            start + 4 + n,
            start + 4 + n + s,
        ) && !has_matroska(d, start + 4 + n, start + 4 + n + s)),
    ensures
        carved(BuiltinCarver::Matroska(Matroska), d, start, None),
{
    lemma_vint(d, start + 4, n, s);
    lemma_vint(d, start + 8 + n + s, k, l);
    lemma_doctype(d, start + 4 + n, s);
    lemma_start(d, start);
}

/// Nothing is carved where no Segment follows the header.
pub proof fn lemma_no_video(d: Seq<u8>, start: int, n: int, s: int)
    requires
        four(d, start, 0x1A, 0x45, 0xDF, 0xA3),
        encodes(d, start + 4, n, s),
        !four(d, start + 4 + n + s, 0x18, 0x53, 0x80, 0x67),
    ensures
        carved(BuiltinCarver::Matroska(Matroska), d, start, None),
{
    lemma_vint(d, start + 4, n, s);
    lemma_start(d, start);
}

/// A file is carved only where there is a video: header and Segment, each
/// with a size that is told, and a document type in the header.
#[verifier::rlimit(40)]
pub proof fn lemma_only_videos(d: Seq<u8>, start: int)
    requires
        0 <= start,
        crate::carve::hit(BuiltinCarver::Matroska(Matroska), d, start) is Some,
    ensures
        exists|n: int, s: int, k: int, l: int| #[trigger]
            video(d, start, n, s, k, l) && s <= 4096,
{
    let c = BuiltinCarver::Matroska(Matroska);
    let magic = c.signature().magics[0];
    assert(stands_at(d, start + 0, magic));
    lemma_four(d, start, 0x1A, 0x45, 0xDF, 0xA3);
    let n = vint_len(d[start + 4]);
    let s = vint_value(d, start + 4, n, n);
    lemma_encodes(d, start + 4);
    let segment = start + 4 + n + s;
    let k = vint_len(d[segment + 4]);
    let l = vint_value(d, segment + 4, k, k);
    lemma_encodes(d, segment + 4);
    assert(video(d, start, n, s, k, l));
}

#[verifier::rlimit(40)]
proof fn lemma_encodes(d: Seq<u8>, p: int)
    requires
        0 <= p,
        vint_at(d, p) is Some,
    ensures
        ({
            let n = vint_len(d[p]);
            encodes(d, p, n, vint_value(d, p, n, n))
        }),
{
    let n = vint_len(d[p]);
    lemma2_to64();
    lemma2_to64_rest();
    reveal_with_fuel(number, 9);
    reveal_with_fuel(vint_value, 9);
    if n == 1 {
    } else if n == 2 {
    } else if n == 3 {
    } else if n == 4 {
    } else if n == 5 {
    } else if n == 6 {
    } else if n == 7 {
    } else {
    }
}

} // verus!
