//! GIF images.

use super::{carved, four, lemma_magic, lemma_word};
use crate::carve::bytes::smaller;
use crate::carve::carver::{BuiltinCarver, Carver};
use crate::carve::formats::gif::{block_end, subblocks_end, table_len, walk, Gif, MAX_LEN};
use vstd::arithmetic::power2::pow2;
use vstd::prelude::*;

verus! {

/// "GIF87a" or "GIF89a" is at `p`.
pub open spec fn image_at(d: Seq<u8>, p: int) -> bool {
    &&& four(d, p, 0x47, 0x49, 0x46, 0x38)
    &&& p + 6 <= d.len()
    &&& d[p + 4] == 0x37 || d[p + 4] == 0x39
    &&& d[p + 5] == 0x61
}

/// The byte at `p` is in the input, and within the longest file that starts
/// at `start`.
pub open spec fn within(d: Seq<u8>, start: int, p: int) -> bool {
    p < d.len() && p < start + 268435456
}

/// The bytes of the color table that `flags` announce: a table is there if
/// the top bit is set; it has twice as many colors as two to the power of the low
/// three bits, of three bytes each.
pub open spec fn colors(flags: u8) -> int {
    if flags < 128 {
        0
    } else {
        (3 * (2 * pow2((flags % 8) as nat))) as int
    }
}

/// Sub-blocks of data are at the places `bs`, one after another: each
/// starts with its length. The last one, and only that, is empty.
pub open spec fn subblocks(d: Seq<u8>, start: int, bs: Seq<int>) -> bool {
    &&& bs.len() >= 1
    &&& forall|k: int| #![trigger bs[k]] 0 <= k < bs.len() ==> within(d, start, bs[k])
    &&& forall|k: int|
        #![trigger bs[k]]
        0 <= k < bs.len() - 1 ==> d[bs[k]] > 0 && bs[k + 1] == bs[k] + 1 + d[bs[k]]
    &&& d[bs.last()] == 0
}

/// Sub-blocks from `p` on end before `q`.
pub open spec fn data_between(d: Seq<u8>, start: int, p: int, q: int) -> bool {
    exists|bs: Seq<int>| #[trigger] subblocks(d, start, bs) && bs[0] == p && q == bs.last() + 1
}

/// An image is from `p` up to `q`: a separator, a descriptor of nine bytes, a
/// color table, the code size, and data.
pub open spec fn image(d: Seq<u8>, start: int, p: int, q: int) -> bool {
    d[p] == 0x2C && p + 10 <= d.len() && data_between(d, start, p + 11 + colors(d[p + 9]), q)
}

/// An extension is from `p` up to `q`: an introducer, a label, and data.
pub open spec fn extension(d: Seq<u8>, start: int, p: int, q: int) -> bool {
    d[p] == 0x21 && data_between(d, start, p + 2, q)
}

/// Images and extensions lie one after another between the places `ps`,
/// behind the screen descriptor and its color table.
pub open spec fn blocks(d: Seq<u8>, start: int, ps: Seq<int>) -> bool {
    &&& ps.len() >= 1
    &&& start + 13 <= d.len()
    &&& ps[0] == start + 13 + colors(d[start + 10])
    &&& forall|k: int|
        #![trigger ps[k]]
        0 <= k < ps.len() - 1 ==> within(d, start, ps[k]) && (image(d, start, ps[k], ps[k + 1])
            || extension(d, start, ps[k], ps[k + 1]))
}

/// One of the blocks from the `k`-th on is an image.
pub open spec fn image_from(d: Seq<u8>, ps: Seq<int>, k: int) -> bool {
    exists|j: int| #![trigger ps[j]] k <= j < ps.len() - 1 && d[ps[j]] == 0x2C
}

spec fn bound(d: Seq<u8>, start: int) -> int {
    smaller(start + MAX_LEN, d.len() as int)
}

proof fn lemma_colors(flags: u8)
    ensures
        colors(flags) == table_len(flags),
        0 <= colors(flags),
{
    vstd::arithmetic::power2::lemma2_to64();
}

proof fn lemma_subblocks(d: Seq<u8>, start: int, bs: Seq<int>, k: int)
    requires
        subblocks(d, start, bs),
        0 <= k < bs.len(),
    ensures
        subblocks_end(d, bs[k], bound(d, start)) == Some(bs.last() + 1),
        bs[k] <= bs.last(),
    decreases bs.len() - k,
{
    assert(within(d, start, bs[k]));
    if k < bs.len() - 1 {
        assert(d[bs[k]] > 0);
        lemma_subblocks(d, start, bs, k + 1);
    }
}

proof fn lemma_block(d: Seq<u8>, start: int, p: int, q: int)
    requires
        0 <= p,
        image(d, start, p, q) || extension(d, start, p, q),
    ensures
        block_end(d, p, bound(d, start)) == Some(q),
        q > p,
{
    let first = if d[p] == 0x2C {
        p + 11 + colors(d[p + 9])
    } else {
        p + 2
    };
    lemma_colors(d[p + 9]);
    let bs = choose|bs: Seq<int>| #[trigger]
        subblocks(d, start, bs) && bs[0] == first && q == bs.last() + 1;
    lemma_subblocks(d, start, bs, 0);
}

proof fn lemma_through(d: Seq<u8>, start: int, ps: Seq<int>, k: int, seen: bool)
    requires
        0 <= start,
        blocks(d, start, ps),
        0 <= k < ps.len(),
        ps[k] >= start,
    ensures
        walk(d, start, bound(d, start), ps[k], seen) == walk(
            d,
            start,
            bound(d, start),
            ps.last(),
            seen || image_from(d, ps, k),
        ),
        ps[k] <= ps.last(),
    decreases ps.len() - k,
{
    if k < ps.len() - 1 {
        lemma_block(d, start, ps[k], ps[k + 1]);
        lemma_through(d, start, ps, k + 1, seen || d[ps[k]] == 0x2C);
        if image_from(d, ps, k) {
            let j = choose|j: int| #![trigger ps[j]] k <= j < ps.len() - 1 && d[ps[j]] == 0x2C;
            assert(ps[j] == ps[j]);
        }
        if image_from(d, ps, k + 1) {
            let j = choose|j: int| #![trigger ps[j]] k + 1 <= j < ps.len() - 1 && d[ps[j]] == 0x2C;
            assert(ps[j] == ps[j]);
        }
    }
}

proof fn lemma_start(d: Seq<u8>, start: int)
    requires
        image_at(d, start),
    ensures
        crate::carve::has_magic(BuiltinCarver::Gif(Gif).signature(), d, start),
{
    let c = BuiltinCarver::Gif(Gif);
    lemma_word(d, start, c.signature().magics[0]);
    lemma_word(d, start, c.signature().magics[1]);
    assert(start + c.signature().magic_offset == start);
    if d[start + 4] == 0x37 {
        lemma_magic(c, d, start, 0);
    } else {
        lemma_magic(c, d, start, 1);
    }
}

/// A GIF is carved whole, animated or not: its blocks, whatever they hold, are
/// followed up to the trailer, and the file ends behind that. A file
/// without an image is none.
pub proof fn lemma_gif_is_whole(d: Seq<u8>, start: int, ps: Seq<int>)
    requires
        image_at(d, start),
        blocks(d, start, ps),
        within(d, start, ps.last()),
        d[ps.last()] == 0x3B,
    ensures
        carved(
            BuiltinCarver::Gif(Gif),
            d,
            start,
            if image_from(d, ps, 0) {
                Some((ps.last() + 1 - start, "gif"@))
            } else {
                None
            },
        ),
{
    lemma_colors(d[start + 10]);
    lemma_through(d, start, ps, 0, false);
    lemma_start(d, start);
}

proof fn lemma_data_found(d: Seq<u8>, start: int, p: int)
    requires
        subblocks_end(d, p, bound(d, start)) is Some,
    ensures
        data_between(d, start, p, subblocks_end(d, p, bound(d, start))->0),
    decreases crate::carve::bytes::room(p, bound(d, start)),
{
    if d[p] == 0 {
        let bs = seq![p];
        assert(subblocks(d, start, bs));
        assert(bs.last() == p);
    } else {
        let next = p + 1 + d[p];
        lemma_data_found(d, start, next);
        let e = subblocks_end(d, next, bound(d, start))->0;
        let cs = choose|cs: Seq<int>| #[trigger]
            subblocks(d, start, cs) && cs[0] == next && e == cs.last() + 1;
        let bs = seq![p] + cs;
        assert forall|k: int| #![trigger bs[k]] 0 <= k < bs.len() implies within(
            d,
            start,
            bs[k],
        ) by {
            assert(k == 0 || bs[k] == cs[k - 1]);
        }
        assert forall|k: int| #![trigger bs[k]] 0 <= k < bs.len() - 1 implies d[bs[k]] > 0
            && bs[k + 1] == bs[k] + 1 + d[bs[k]] by {
            assert(bs[k + 1] == cs[k]);
            if k > 0 {
                assert(bs[k] == cs[k - 1]);
                assert(cs[k - 1 + 1] == cs[k - 1] + 1 + d[cs[k - 1]]);
            }
        }
        assert(bs.last() == cs.last());
        assert(subblocks(d, start, bs));
    }
}

/// Nothing is carved where the blocks lead to something that is neither the
/// trailer nor a further block, or only a part of one.
pub proof fn lemma_broken_gif(d: Seq<u8>, start: int, ps: Seq<int>)
    requires
        image_at(d, start),
        blocks(d, start, ps),
        !within(d, start, ps.last()) || d[ps.last()] != 0x3B,
        forall|q: int| !#[trigger] image(d, start, ps.last(), q),
        forall|q: int| !#[trigger] extension(d, start, ps.last(), q),
    ensures
        carved(BuiltinCarver::Gif(Gif), d, start, None),
{
    let p = ps.last();
    lemma_colors(d[start + 10]);
    lemma_through(d, start, ps, 0, false);
    if within(d, start, p) {
        if let Some(q) = block_end(d, p, bound(d, start)) {
            lemma_colors(d[p + 9]);
            if d[p] == 0x2C {
                lemma_data_found(d, start, p + 11 + colors(d[p + 9]));
                assert(image(d, start, p, q));
            } else {
                lemma_data_found(d, start, p + 2);
                assert(extension(d, start, p, q));
            }
        }
    }
}

/// Nothing is carved where the screen descriptor is cut off.
pub proof fn lemma_no_gif(d: Seq<u8>, start: int)
    requires
        image_at(d, start),
        start + 13 > d.len(),
    ensures
        carved(BuiltinCarver::Gif(Gif), d, start, None),
{
}

} // verus!
