//! AVI, WAV and WebP files.

use super::{carved, four, lemma_four, lemma_magic, little32};
use crate::carve::bytes::{room, stands_at};
use crate::carve::carver::{BuiltinCarver, Carver};
use crate::carve::formats::riff::{
    avi_tag, avix_end, avix_tag, is_segment, segment_len, wave_tag, webp_tag, Riff,
};
use vstd::prelude::*;

verus! {

/// A segment is at `p`: "RIFF", a size, and a form of four bytes, which the
/// size counts.
pub open spec fn segment(d: Seq<u8>, p: int) -> bool {
    four(d, p, 0x52, 0x49, 0x46, 0x46) && p + 12 <= d.len() && little32(d, p + 4) >= 4
}

/// Where the segment at `p` ends, which is padded to an even length.
pub open spec fn segment_end(d: Seq<u8>, p: int) -> int {
    if little32(d, p + 4) % 2 == 0 {
        p + 8 + little32(d, p + 4)
    } else {
        p + 9 + little32(d, p + 4)
    }
}

/// A segment at `p` goes on with an AVI: its form is "AVIX".
pub open spec fn goes_on(d: Seq<u8>, p: int) -> bool {
    segment(d, p) && four(d, p + 8, 0x41, 0x56, 0x49, 0x58)
}

/// An AVI and the segments that go on with it lie one after another between
/// the places `ps`.
pub open spec fn segments(d: Seq<u8>, ps: Seq<int>) -> bool {
    &&& ps.len() >= 2
    &&& segment(d, ps[0])
    &&& four(d, ps[0] + 8, 0x41, 0x56, 0x49, 0x20)
    &&& forall|k: int|
        #![trigger ps[k]]
        0 <= k < ps.len() - 1 ==> ps[k + 1] == segment_end(d, ps[k])
    &&& forall|k: int|
        #![trigger ps[k]]
        0 < k < ps.len() - 1 ==> goes_on(d, ps[k]) && ps[k] - ps[0] < 68719476736
}

proof fn lemma_segment(d: Seq<u8>, p: int)
    requires
        0 <= p,
    ensures
        segment(d, p) == is_segment(d, p),
        segment_end(d, p) == p + segment_len(d, p),
        goes_on(d, p) == (is_segment(d, p) && stands_at(d, p + 8, avix_tag())),
        four(d, p + 8, 0x41, 0x56, 0x49, 0x20) == stands_at(d, p + 8, avi_tag()),
        four(d, p + 8, 0x57, 0x41, 0x56, 0x45) == stands_at(d, p + 8, wave_tag()),
        four(d, p + 8, 0x57, 0x45, 0x42, 0x50) == stands_at(d, p + 8, webp_tag()),
{
    lemma_four(d, p, 0x52, 0x49, 0x46, 0x46);
    lemma_four(d, p + 8, 0x41, 0x56, 0x49, 0x20);
    lemma_four(d, p + 8, 0x57, 0x41, 0x56, 0x45);
    lemma_four(d, p + 8, 0x57, 0x45, 0x42, 0x50);
    lemma_four(d, p + 8, 0x41, 0x56, 0x49, 0x58);
}

proof fn lemma_start(d: Seq<u8>, start: int)
    requires
        0 <= start,
        segment(d, start),
    ensures
        crate::carve::has_magic(BuiltinCarver::Riff(Riff).signature(), d, start),
{
    let c = BuiltinCarver::Riff(Riff);
    lemma_four(d, start, 0x52, 0x49, 0x46, 0x46);
    assert(start + c.signature().magic_offset == start);
    lemma_magic(c, d, start, 0);
}

proof fn lemma_onwards(d: Seq<u8>, start: int, end: int)
    requires
        0 <= end,
    ensures
        avix_end(d, start, end) >= end,
    decreases room(end, start + crate::carve::formats::riff::MAX_LEN),
{
    if end - start < crate::carve::formats::riff::MAX_LEN && is_segment(d, end) {
        lemma_onwards(d, start, end + segment_len(d, end));
    }
}

proof fn lemma_through(d: Seq<u8>, ps: Seq<int>, k: int)
    requires
        segments(d, ps),
        0 <= ps[0],
        0 < k < ps.len(),
        ps[k] > ps[0],
    ensures
        avix_end(d, ps[0], ps[k]) == avix_end(d, ps[0], ps.last()),
        ps[k] <= ps.last(),
    decreases ps.len() - k,
{
    if k < ps.len() - 1 {
        assert(goes_on(d, ps[k]));
        assert(ps[k + 1] == segment_end(d, ps[k]));
        lemma_segment(d, ps[k]);
        lemma_through(d, ps, k + 1);
    }
}

/// An AVI is carved whole, also one of many gigabytes: all segments that go
/// on with it are in the file, up to the longest file.
pub proof fn lemma_all_segments_are_carved(d: Seq<u8>, ps: Seq<int>)
    requires
        0 <= ps[0],
        segments(d, ps),
    ensures
        Riff.measured(d, ps[0]) matches Some((len, extension)) && extension == "avi"@ && (len
            >= ps.last() - ps[0] || len == 68719476736) && len <= 68719476736,
        crate::carve::hit(BuiltinCarver::Riff(Riff), d, ps[0]) == Riff.measured(d, ps[0]),
{
    lemma_segment(d, ps[0]);
    assert(ps[1] == segment_end(d, ps[0]));
    lemma_through(d, ps, 1);
    lemma_onwards(d, ps[0], ps.last());
    lemma_start(d, ps[0]);
}

/// An AVI ends with its last segment.
pub proof fn lemma_no_other_segment_is_carved(d: Seq<u8>, ps: Seq<int>)
    requires
        0 <= ps[0],
        segments(d, ps),
        !goes_on(d, ps.last()) || ps.last() - ps[0] >= 68719476736,
    ensures
        carved(
            BuiltinCarver::Riff(Riff),
            d,
            ps[0],
            Some(
                (
                    if ps.last() - ps[0] < 68719476736 {
                        ps.last() - ps[0]
                    } else {
                        68719476736
                    },
                    "avi"@,
                ),
            ),
        ),
{
    lemma_segment(d, ps[0]);
    assert(ps[1] == segment_end(d, ps[0]));
    lemma_through(d, ps, 1);
    lemma_segment(d, ps.last());
    lemma_start(d, ps[0]);
}

/// A sound or a WebP image is one segment; other forms are not carved.
pub proof fn lemma_single_segments(d: Seq<u8>, start: int)
    requires
        0 <= start,
        segment(d, start),
        !four(d, start + 8, 0x41, 0x56, 0x49, 0x20),
    ensures
        carved(
            BuiltinCarver::Riff(Riff),
            d,
            start,
            if four(d, start + 8, 0x57, 0x41, 0x56, 0x45) {
                Some((segment_end(d, start) - start, "wav"@))
            } else if four(d, start + 8, 0x57, 0x45, 0x42, 0x50) {
                Some((segment_end(d, start) - start, "webp"@))
            } else {
                None
            },
        ),
{
    lemma_segment(d, start);
    lemma_start(d, start);
}

/// Nothing is carved where no segment is.
pub proof fn lemma_no_segment(d: Seq<u8>, start: int)
    requires
        0 <= start,
        !segment(d, start),
    ensures
        carved(BuiltinCarver::Riff(Riff), d, start, None),
{
    lemma_segment(d, start);
}

} // verus!
