//! PDF documents.

use super::{carved, four, lemma_magic, lemma_word};
use crate::carve::bytes::stands_at;
use crate::carve::carver::{BuiltinCarver, Carver};
use crate::carve::formats::pdf::{eof_tag, header_tag, window_end, Pdf};
use crate::carve::search::{absent, lemma_first_at_skip, lemma_last_at_skip};
use vstd::prelude::*;

verus! {

/// "%PDF-" is at `p`.
pub open spec fn document_at(d: Seq<u8>, p: int) -> bool {
    four(d, p, 0x25, 0x50, 0x44, 0x46) && p + 5 <= d.len() && d[p + 4] == 0x2D
}

/// "%%EOF" is at `p`.
pub open spec fn end_at(d: Seq<u8>, p: int) -> bool {
    four(d, p, 0x25, 0x25, 0x45, 0x4F) && p + 5 <= d.len() && d[p + 4] == 0x46
}

/// Where the search for the end of a document at `start` stops at the
/// latest.
pub open spec fn bound(d: Seq<u8>, start: int) -> int {
    if d.len() < start + 268435456 {
        d.len() as int
    } else {
        start + 268435456
    }
}

/// The document at `start` ends by `w`: the next document starts there, or
/// there is none and the search stops there.
pub open spec fn ends_by(d: Seq<u8>, start: int, w: int) -> bool {
    &&& start + 5 <= w
    &&& forall|i: int|
        start + 5 <= i < w && i + 5 <= bound(d, start) ==> !#[trigger] document_at(d, i)
    &&& w == bound(d, start) || (document_at(d, w) && w + 5 <= bound(d, start))
}

/// How much of a line end is at `p` within the document that starts at
/// `start`.
pub open spec fn line_end(d: Seq<u8>, start: int, p: int) -> int {
    if p + 2 <= bound(d, start) && d[p] == 0x0D && d[p + 1] == 0x0A {
        2
    } else if p + 1 <= bound(d, start) && (d[p] == 0x0D || d[p] == 0x0A) {
        1
    } else {
        0
    }
}

/// The marks of a document, byte by byte.
pub proof fn lemma_tags(d: Seq<u8>, p: int)
    ensures
        document_at(d, p) == stands_at(d, p, header_tag()),
        end_at(d, p) == stands_at(d, p, eof_tag()),
{
    let h = header_tag();
    let e = eof_tag();
    lemma_word(d, p, h);
    lemma_word(d, p, e);
    if stands_at(d, p, h) {
        assert(d[p + 0] == h[0] && d[p + 1] == h[1] && d[p + 2] == h[2] && d[p + 3] == h[3]
            && d[p + 4] == h[4]);
    }
    if stands_at(d, p, e) {
        assert(d[p + 0] == e[0] && d[p + 1] == e[1] && d[p + 2] == e[2] && d[p + 3] == e[3]
            && d[p + 4] == e[4]);
    }
}

proof fn lemma_window(d: Seq<u8>, start: int, w: int)
    requires
        document_at(d, start),
        ends_by(d, start, w),
    ensures
        window_end(d, start, bound(d, start)) == w,
        crate::carve::has_magic(BuiltinCarver::Pdf(Pdf).signature(), d, start),
{
    let limit = bound(d, start);
    let to = if document_at(d, w) && w + 5 <= limit {
        w
    } else {
        limit - 4
    };
    assert forall|i: int| start + 5 <= i < to implies !#[trigger] stands_at(
        d,
        i,
        header_tag(),
    ) by {
        lemma_tags(d, i);
    }
    if start + 5 <= to {
        lemma_first_at_skip(d, header_tag(), start + 5, to, limit);
    }
    lemma_tags(d, w);
    let c = BuiltinCarver::Pdf(Pdf);
    lemma_tags(d, start);
    assert(start + c.signature().magic_offset == start);
    lemma_magic(c, d, start, 0);
}

/// A document is carved up to its last end mark, behind all its updates, and
/// with the line end behind that; a document that follows is left alone.
pub proof fn lemma_document_is_whole(d: Seq<u8>, start: int, w: int, e: int)
    requires
        document_at(d, start),
        ends_by(d, start, w),
        start <= e,
        e + 5 <= w,
        end_at(d, e),
        forall|i: int| e < i && i + 5 <= w ==> !#[trigger] end_at(d, i),
    ensures
        carved(
            BuiltinCarver::Pdf(Pdf),
            d,
            start,
            Some((e + 5 + line_end(d, start, e + 5) - start, "pdf"@)),
        ),
{
    lemma_window(d, start, w);
    assert forall|i: int| e + 1 <= i < w - 5 + 1 implies !#[trigger] stands_at(d, i, eof_tag()) by {
        lemma_tags(d, i);
    }
    assert(absent(d, eof_tag(), e + 5 - 5 + 1, w - 5 + 1));
    lemma_last_at_skip(d, eof_tag(), start, e + 5, w);
    lemma_tags(d, e);
}

/// A document without an end mark is not carved.
pub proof fn lemma_endless_document(d: Seq<u8>, start: int, w: int)
    requires
        document_at(d, start),
        ends_by(d, start, w),
        forall|i: int| start <= i && i + 5 <= w ==> !#[trigger] end_at(d, i),
    ensures
        carved(BuiltinCarver::Pdf(Pdf), d, start, None),
{
    lemma_window(d, start, w);
    assert forall|i: int| start <= i < w - 5 + 1 implies !#[trigger] stands_at(d, i, eof_tag()) by {
        lemma_tags(d, i);
    }
    assert(absent(d, eof_tag(), start + 4 - 5 + 1, w - 5 + 1));
    lemma_last_at_skip(d, eof_tag(), start, start + 4, w);
}

} // verus!
