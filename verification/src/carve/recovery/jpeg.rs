//! JPEG photos.

use super::{big16, carved, lemma_magic, lemma_word};
use crate::carve::bytes::stands_at;
use crate::carve::carver::{BuiltinCarver, Carver};
use crate::carve::formats::jpeg::{eoi_marker, head, Jpeg};
use crate::carve::search::lemma_first_at_skip;
use vstd::prelude::*;

verus! {

/// A JPEG starts at `p`: the start-of-image marker and the start of another
/// marker.
pub open spec fn photo_at(d: Seq<u8>, p: int) -> bool {
    0 <= p && p + 3 <= d.len() && d[p] == 0xFF && d[p + 1] == 0xD8 && d[p + 2] == 0xFF
}

/// `e` is in the input, and within the longest file that starts at `start`.
pub open spec fn within(d: Seq<u8>, start: int, e: int) -> bool {
    e <= d.len() && e - start <= 268435456
}

/// The marker parts of a file from `p` to `q`: a marker that stands alone
/// (`TEM`, restarts, start of image), or any other marker with a segment
/// that tells its own length. Start of scan and end of image are neither.
pub open spec fn part(d: Seq<u8>, p: int, q: int) -> bool {
    let m = d[p + 1];
    &&& d[p] == 0xFF
    &&& if m == 0x01 || (0xD0 <= m && m <= 0xD8) {
        q == p + 2
    } else {
        m != 0x00 && m != 0xD9 && m != 0xDA && m != 0xFF && big16(d, p + 2) >= 2 && q == p + 2
            + big16(d, p + 2)
    }
}

/// Parts lie one after another between the places `ps`.
pub open spec fn parts(d: Seq<u8>, start: int, ps: Seq<int>) -> bool {
    &&& ps.len() >= 1
    &&& ps[0] == start + 2
    &&& forall|k: int|
        #![trigger ps[k]]
        0 <= k < ps.len() - 1 ==> within(d, start, ps[k] + 4) && part(d, ps[k], ps[k + 1])
}

/// The end-of-image marker is at `p`.
pub open spec fn end_at(d: Seq<u8>, p: int) -> bool {
    d[p] == 0xFF && d[p + 1] == 0xD9
}

spec fn bound(d: Seq<u8>, start: int) -> int {
    crate::carve::bytes::smaller(start + crate::carve::formats::jpeg::MAX_LEN, d.len() as int)
}

proof fn lemma_photo(d: Seq<u8>, start: int)
    requires
        photo_at(d, start),
    ensures
        crate::carve::has_magic(BuiltinCarver::Jpeg(Jpeg).signature(), d, start),
{
    let c = BuiltinCarver::Jpeg(Jpeg);
    lemma_word(d, start, c.signature().magics[0]);
    assert(start + c.signature().magic_offset == start);
    lemma_magic(c, d, start, 0);
}

proof fn lemma_through(d: Seq<u8>, start: int, ps: Seq<int>, k: int)
    requires
        parts(d, start, ps),
        0 <= k < ps.len(),
    ensures
        head(d, bound(d, start), ps[k]) == head(d, bound(d, start), ps.last()),
        ps[k] <= ps.last(),
    decreases ps.len() - k,
{
    if k < ps.len() - 1 {
        assert(part(d, ps[k], ps[k + 1]));
        lemma_through(d, start, ps, k + 1);
    }
}

proof fn lemma_end(d: Seq<u8>, p: int)
    ensures
        stands_at(d, p, eoi_marker()) <==> 0 <= p && p + 2 <= d.len() && end_at(d, p),
{
    lemma_word(d, p, eoi_marker());
    if stands_at(d, p, eoi_marker()) {
        assert(d[p + 0] == eoi_marker()[0] && d[p + 1] == eoi_marker()[1]);
    }
    if 0 <= p && p + 2 <= d.len() && end_at(d, p) {
        assert forall|i: int| 0 <= i < 2 implies d[p + i] == #[trigger] eoi_marker()[i] by {
            assert(i == 0 || i == 1);
        }
    }
}

/// A photo is carved to its real end, progressive or not: whatever the
/// markers of its segments are, and whatever the segments hold, the file
/// goes up to the first end-of-image marker behind the header of the first
/// scan.
pub proof fn lemma_photo_is_whole(d: Seq<u8>, start: int, ps: Seq<int>, e: int)
    requires
        photo_at(d, start),
        parts(d, start, ps),
        within(d, start, ps.last() + 4),
        d[ps.last()] == 0xFF,
        d[ps.last() + 1] == 0xDA,
        big16(d, ps.last() + 2) >= 2,
        e >= ps.last() + 2 + big16(d, ps.last() + 2),
        within(d, start, e + 2),
        end_at(d, e),
        forall|i: int|
            ps.last() + 2 + big16(d, ps.last() + 2) <= i < e ==> !#[trigger] end_at(d, i),
    ensures
        carved(BuiltinCarver::Jpeg(Jpeg), d, start, Some((e + 2 - start, "jpg"@))),
{
    let from = ps.last() + 2 + big16(d, ps.last() + 2);
    lemma_through(d, start, ps, 0);
    assert forall|i: int| from <= i < e implies !#[trigger] stands_at(d, i, eoi_marker()) by {
        lemma_end(d, i);
    }
    lemma_first_at_skip(d, eoi_marker(), from, e, bound(d, start));
    lemma_end(d, e);
    lemma_photo(d, start);
}

/// A photo with a scan but without an end is not carved.
pub proof fn lemma_endless_photo(d: Seq<u8>, start: int, ps: Seq<int>)
    requires
        photo_at(d, start),
        parts(d, start, ps),
        within(d, start, ps.last() + 4),
        d[ps.last()] == 0xFF,
        d[ps.last() + 1] == 0xDA,
        forall|i: int|
            ps.last() + 2 + big16(d, ps.last() + 2) <= i && within(d, start, i + 2)
                ==> !#[trigger] end_at(d, i),
    ensures
        carved(BuiltinCarver::Jpeg(Jpeg), d, start, None),
{
    let from = ps.last() + 2 + big16(d, ps.last() + 2);
    let limit = bound(d, start);
    lemma_through(d, start, ps, 0);
    assert forall|i: int| from <= i < limit - 1 implies !#[trigger] stands_at(
        d,
        i,
        eoi_marker(),
    ) by {
        lemma_end(d, i);
    }
    if from < limit - 1 {
        lemma_first_at_skip(d, eoi_marker(), from, limit - 1, limit);
    }
    lemma_photo(d, start);
}

/// A photo whose parts lead to the end-of-image marker without a scan ends
/// there.
pub proof fn lemma_empty_photo(d: Seq<u8>, start: int, ps: Seq<int>)
    requires
        photo_at(d, start),
        parts(d, start, ps),
        within(d, start, ps.last() + 4),
        end_at(d, ps.last()),
    ensures
        carved(BuiltinCarver::Jpeg(Jpeg), d, start, Some((ps.last() + 2 - start, "jpg"@))),
{
    lemma_through(d, start, ps, 0);
    lemma_photo(d, start);
}

/// Nothing is carved where the parts lead to something that is no marker, to
/// a segment shorter than its own length field, or to the end of the input.
pub proof fn lemma_no_photo(d: Seq<u8>, start: int, ps: Seq<int>)
    requires
        photo_at(d, start),
        parts(d, start, ps),
        ({
            let p = ps.last();
            let m = d[p + 1];
            ||| !within(d, start, p + 4)
            ||| d[p] != 0xFF
            ||| m == 0x00
            ||| m == 0xFF
            ||| m != 0x01 && !(0xD0 <= m && m <= 0xD9) && big16(d, p + 2) < 2
        }),
    ensures
        carved(BuiltinCarver::Jpeg(Jpeg), d, start, None),
{
    lemma_through(d, start, ps, 0);
    lemma_photo(d, start);
}

} // verus!
