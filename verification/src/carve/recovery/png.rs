//! PNG images.

use super::{big32, carved, four, lemma_four, lemma_magic, lemma_word};
use crate::carve::bytes::stands_at;
use crate::carve::carver::{BuiltinCarver, Carver};
use crate::carve::formats::png::{idat_tag, iend_tag, ihdr_tag, is_chunk, walk, Png};
use vstd::prelude::*;

verus! {

/// The eight bytes at `p` that every PNG starts with.
pub open spec fn signature_at(d: Seq<u8>, p: int) -> bool {
    four(d, p, 0x89, 0x50, 0x4E, 0x47) && four(d, p + 4, 0x0D, 0x0A, 0x1A, 0x0A)
}

/// A chunk header is at `p`: a length of 31 bits and a type of four ASCII
/// letters, of either case.
pub open spec fn header_at(d: Seq<u8>, p: int) -> bool {
    &&& 0 <= p
    &&& p + 8 <= d.len()
    &&& big32(d, p) <= 2147483647
    &&& forall|i: int|
        4 <= i < 8 ==> (0x41 <= #[trigger] d[p + i] <= 0x5A || 0x61 <= d[p + i] <= 0x7A)
}

/// Chunks of length, type, data and checksum lie one after another between
/// the places `ps`; none but perhaps the last is `IEND`.
pub open spec fn chunks(d: Seq<u8>, ps: Seq<int>) -> bool {
    &&& ps.len() >= 1
    &&& forall|k: int|
        #![trigger ps[k]]
        0 <= k < ps.len() - 1 ==> header_at(d, ps[k]) && ps[k + 1] == ps[k] + 12 + big32(d, ps[k])
    &&& forall|k: int|
        #![trigger ps[k]]
        0 <= k < ps.len() - 2 ==> !four(d, ps[k] + 4, 0x49, 0x45, 0x4E, 0x44)
}

/// Some chunk of those between the places `ps`, from the `k`-th on, is
/// `IDAT`: image data.
pub open spec fn image_data(d: Seq<u8>, ps: Seq<int>, k: int) -> bool {
    exists|j: int|
        #![trigger ps[j]]
        k <= j < ps.len() - 1 && four(d, ps[j] + 4, 0x49, 0x44, 0x41, 0x54)
}

/// The chunk at `p` is `IHDR` with its 13 bytes of data.
pub open spec fn image_header(d: Seq<u8>, p: int) -> bool {
    four(d, p + 4, 0x49, 0x48, 0x44, 0x52) && big32(d, p) == 13
}

/// Where the search for the end of a PNG at `start` stops.
pub open spec fn bound(d: Seq<u8>, start: int) -> int {
    if d.len() < start + 268435456 {
        d.len() as int
    } else {
        start + 268435456
    }
}

proof fn lemma_tags(d: Seq<u8>, p: int)
    ensures
        stands_at(d, p, ihdr_tag()) == four(d, p, 0x49, 0x48, 0x44, 0x52),
        stands_at(d, p, idat_tag()) == four(d, p, 0x49, 0x44, 0x41, 0x54),
        stands_at(d, p, iend_tag()) == four(d, p, 0x49, 0x45, 0x4E, 0x44),
{
    lemma_four(d, p, 0x49, 0x48, 0x44, 0x52);
    lemma_four(d, p, 0x49, 0x44, 0x41, 0x54);
    lemma_four(d, p, 0x49, 0x45, 0x4E, 0x44);
}

proof fn lemma_header(d: Seq<u8>, p: int)
    requires
        0 <= p,
        p + 8 <= d.len(),
    ensures
        header_at(d, p) == is_chunk(d, p),
{
    if header_at(d, p) {
        assert(d[p + 4] == d[p + 4] && d[p + 5] == d[p + 5]);
        assert(d[p + 6] == d[p + 6] && d[p + 7] == d[p + 7]);
    }
    if is_chunk(d, p) {
        assert forall|i: int| 4 <= i < 8 implies (0x41 <= #[trigger] d[p + i] <= 0x5A || 0x61
            <= d[p + i] <= 0x7A) by {
            assert(i == 4 || i == 5 || i == 6 || i == 7);
        }
    }
}

proof fn lemma_signature(d: Seq<u8>, start: int)
    requires
        signature_at(d, start),
    ensures
        crate::carve::has_magic(BuiltinCarver::Png(Png).signature(), d, start),
{
    let c = BuiltinCarver::Png(Png);
    lemma_word(d, start, c.signature().magics[0]);
    assert(start + c.signature().magic_offset == start);
    lemma_magic(c, d, start, 0);
}

/// The walk steps over a whole chunk.
#[verifier::rlimit(40)]
proof fn lemma_step(d: Seq<u8>, start: int, p: int, seen: bool)
    requires
        0 <= start,
        start + 8 <= p,
        header_at(d, p),
        p + 12 + big32(d, p) <= bound(d, start),
        p == start + 8 ==> image_header(d, p),
        !four(d, p + 4, 0x49, 0x45, 0x4E, 0x44),
    ensures
        walk(d, start, bound(d, start), p, seen) == walk(
            d,
            start,
            bound(d, start),
            p + 12 + big32(d, p),
            seen || four(d, p + 4, 0x49, 0x44, 0x41, 0x54),
        ),
{
    lemma_tags(d, p + 4);
    lemma_header(d, p);
}

proof fn lemma_image_data(d: Seq<u8>, ps: Seq<int>, k: int)
    requires
        0 <= k < ps.len() - 1,
    ensures
        image_data(d, ps, k) == (four(d, ps[k] + 4, 0x49, 0x44, 0x41, 0x54) || image_data(
            d,
            ps,
            k + 1,
        )),
{
    if image_data(d, ps, k) {
        let j = choose|j: int|
            #![trigger ps[j]]
            k <= j < ps.len() - 1 && four(d, ps[j] + 4, 0x49, 0x44, 0x41, 0x54);
        assert(ps[j] == ps[j]);
    }
    if image_data(d, ps, k + 1) {
        let j = choose|j: int|
            #![trigger ps[j]]
            k + 1 <= j < ps.len() - 1 && four(d, ps[j] + 4, 0x49, 0x44, 0x41, 0x54);
        assert(ps[j] == ps[j]);
    }
}

/// The walk goes through whole chunks from place to place.
proof fn lemma_through(d: Seq<u8>, start: int, ps: Seq<int>, k: int, seen: bool)
    requires
        0 <= start,
        chunks(d, ps),
        ps[0] == start + 8,
        ps.last() <= bound(d, start),
        0 <= k < ps.len(),
        k < ps.len() - 1 ==> image_header(d, ps[0]),
        forall|j: int|
            #![trigger ps[j]]
            0 <= j < ps.len() - 1 ==> !four(d, ps[j] + 4, 0x49, 0x45, 0x4E, 0x44),
    ensures
        walk(d, start, bound(d, start), ps[k], seen) == walk(
            d,
            start,
            bound(d, start),
            ps.last(),
            seen || image_data(d, ps, k),
        ),
    decreases ps.len() - k,
{
    if k < ps.len() - 1 {
        let p = ps[k];
        assert(ps[k + 1] == p + 12 + big32(d, p));
        lemma_places(d, ps, 0, k);
        lemma_places(d, ps, k + 1, ps.len() - 1);
        lemma_step(d, start, p, seen);
        lemma_image_data(d, ps, k);
        lemma_through(d, start, ps, k + 1, seen || four(d, p + 4, 0x49, 0x44, 0x41, 0x54));
    }
}

proof fn lemma_places(d: Seq<u8>, ps: Seq<int>, i: int, j: int)
    requires
        chunks(d, ps),
        0 <= i <= j < ps.len(),
    ensures
        ps[i] + 12 * (j - i) <= ps[j],
    decreases j - i,
{
    if i < j {
        lemma_places(d, ps, i, j - 1);
        assert(ps[j - 1 + 1] == ps[j - 1] + 12 + big32(d, ps[j - 1]));
    }
}

/// A PNG is carved whole: chunks of any types, from an `IHDR` of 13 bytes up
/// to the first `IEND`, are measured to the end of that `IEND`, whatever
/// the chunks hold and whatever follows.
#[verifier::rlimit(40)]
pub proof fn lemma_png_is_whole(d: Seq<u8>, start: int, ps: Seq<int>)
    requires
        signature_at(d, start),
        chunks(d, ps),
        ps.len() >= 2,
        ps[0] == start + 8,
        image_header(d, ps[0]),
        four(d, ps[ps.len() - 2] + 4, 0x49, 0x45, 0x4E, 0x44),
        ps.last() <= d.len(),
        ps.last() - start <= 268435456,
    ensures
        carved(BuiltinCarver::Png(Png), d, start, Some((ps.last() - start, "png"@))),
{
    let n = ps.len() - 2;
    let qs = ps.drop_last();
    let p = ps[n];
    assert(ps[n + 1] == p + 12 + big32(d, p));
    assert(n > 0) by {
        if n == 0 {
            assert(d[p + 5] == 0x48);
        }
    }
    assert forall|k: int| #![trigger qs[k]] 0 <= k < qs.len() - 1 implies header_at(d, qs[k])
        && qs[k + 1] == qs[k] + 12 + big32(d, qs[k]) && !four(
        d,
        qs[k] + 4,
        0x49,
        0x45,
        0x4E,
        0x44,
    ) by {
        assert(qs[k] == ps[k] && qs[k + 1] == ps[k + 1]);
    }
    lemma_through(d, start, qs, 0, false);
    lemma_places(d, ps, 0, n);
    lemma_tags(d, p + 4);
    lemma_header(d, p);
    lemma_signature(d, start);
}

/// A PNG whose chain of chunks breaks before `IEND` is carved up to the
/// break if image data came before it, and not at all otherwise.
pub proof fn lemma_broken_png(d: Seq<u8>, start: int, ps: Seq<int>)
    requires
        signature_at(d, start),
        chunks(d, ps),
        ps[0] == start + 8,
        ps.len() >= 2 ==> image_header(d, ps[0]) && !four(
            d,
            ps[ps.len() - 2] + 4,
            0x49,
            0x45,
            0x4E,
            0x44,
        ),
        ps.last() <= d.len(),
        ps.last() - start <= 268435456,
        !header_at(d, ps.last()) || ps.last() + 8 - start > 268435456,
    ensures
        carved(
            BuiltinCarver::Png(Png),
            d,
            start,
            if image_data(d, ps, 0) {
                Some((ps.last() - start, "png"@))
            } else {
                None
            },
        ),
{
    lemma_places(d, ps, 0, ps.len() - 1);
    lemma_through(d, start, ps, 0, false);
    if ps.last() + 8 <= d.len() {
        lemma_header(d, ps.last());
    }
    lemma_signature(d, start);
}

/// A PNG whose last chunk runs past the end of the input, or past the
/// longest file, is carved up to there if it has image data.
#[verifier::rlimit(40)]
pub proof fn lemma_cut_png(d: Seq<u8>, start: int, ps: Seq<int>)
    requires
        signature_at(d, start),
        chunks(d, ps),
        ps.len() >= 2,
        ps[0] == start + 8,
        image_header(d, ps[0]),
        ps[ps.len() - 2] + 8 <= d.len(),
        ps[ps.len() - 2] + 8 - start <= 268435456,
        ps.last() > d.len() || ps.last() - start > 268435456,
    ensures
        carved(
            BuiltinCarver::Png(Png),
            d,
            start,
            if image_data(d, ps, 0) {
                Some((bound(d, start) - start, "png"@))
            } else {
                None
            },
        ),
{
    let n = ps.len() - 2;
    let qs = ps.drop_last();
    let p = ps[n];
    assert(ps[n + 1] == p + 12 + big32(d, p));
    assert forall|k: int| #![trigger qs[k]] 0 <= k < qs.len() - 1 implies header_at(d, qs[k])
        && qs[k + 1] == qs[k] + 12 + big32(d, qs[k]) && !four(
        d,
        qs[k] + 4,
        0x49,
        0x45,
        0x4E,
        0x44,
    ) by {
        assert(qs[k] == ps[k] && qs[k + 1] == ps[k + 1]);
    }
    lemma_places(d, ps, 0, n);
    lemma_through(d, start, qs, 0, false);
    lemma_tags(d, p + 4);
    lemma_header(d, p);
    lemma_signature(d, start);
    assert(image_data(d, ps, 0) == (image_data(d, qs, 0) || four(
        d,
        p + 4,
        0x49,
        0x44,
        0x41,
        0x54,
    ))) by {
        if image_data(d, ps, 0) {
            let j = choose|j: int|
                #![trigger ps[j]]
                0 <= j < ps.len() - 1 && four(d, ps[j] + 4, 0x49, 0x44, 0x41, 0x54);
            assert(j == n || qs[j] == ps[j]);
        }
        if image_data(d, qs, 0) {
            let j = choose|j: int|
                #![trigger qs[j]]
                0 <= j < qs.len() - 1 && four(d, qs[j] + 4, 0x49, 0x44, 0x41, 0x54);
            assert(qs[j] == ps[j]);
        }
    }
}

/// Nothing is carved where the signature is not followed by an `IHDR` chunk
/// of 13 bytes.
pub proof fn lemma_no_png(d: Seq<u8>, start: int)
    requires
        signature_at(d, start),
        !image_header(d, start + 8),
    ensures
        carved(BuiltinCarver::Png(Png), d, start, None),
{
    if start + 16 <= d.len() {
        lemma_tags(d, start + 12);
    }
    lemma_signature(d, start);
}

} // verus!
