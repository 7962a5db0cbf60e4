//! MP4, MOV and HEIC files.

use super::{big32, carved, four, lemma_four, lemma_magic};
use crate::carve::bytes::{be32, holds, room};
use crate::carve::carver::{BuiltinCarver, Carver, MAX_INPUT};
use crate::carve::formats::isobmff::{
    box_len, extension_of, is_payload, is_top_level, walk, IsoBmff,
};
use vstd::prelude::*;

verus! {

/// The type of the box at `p` is one of those that a file is made of.
pub open spec fn belongs(d: Seq<u8>, p: int) -> bool {
    ||| four(d, p + 4, 0x66, 0x74, 0x79, 0x70)  // ftyp
    ||| four(d, p + 4, 0x6D, 0x6F, 0x6F, 0x76)  // moov
    ||| four(d, p + 4, 0x6D, 0x64, 0x61, 0x74)  // mdat
    ||| four(d, p + 4, 0x66, 0x72, 0x65, 0x65)  // free
    ||| four(d, p + 4, 0x73, 0x6B, 0x69, 0x70)  // skip
    ||| four(d, p + 4, 0x77, 0x69, 0x64, 0x65)  // wide
    ||| four(d, p + 4, 0x75, 0x75, 0x69, 0x64)  // uuid
    ||| four(d, p + 4, 0x6D, 0x65, 0x74, 0x61)  // meta
    ||| four(d, p + 4, 0x6D, 0x6F, 0x6F, 0x66)  // moof
    ||| four(d, p + 4, 0x6D, 0x66, 0x72, 0x61)  // mfra
    ||| four(d, p + 4, 0x73, 0x69, 0x64, 0x78)  // sidx
    ||| four(d, p + 4, 0x73, 0x74, 0x79, 0x70)  // styp
    ||| four(d, p + 4, 0x70, 0x6E, 0x6F, 0x74)  // pnot
    ||| four(d, p + 4, 0x75, 0x64, 0x74, 0x61)  // udta
    ||| four(d, p + 4, 0x70, 0x72, 0x66, 0x74)  // prft
    ||| four(d, p + 4, 0x65, 0x6D, 0x73, 0x67)  // emsg
    ||| four(d, p + 4, 0x6D, 0x66, 0x72, 0x6F)  // mfro

}

/// The box at `p` is a file type: `ftyp`.
pub open spec fn is_file_type(d: Seq<u8>, p: int) -> bool {
    four(d, p + 4, 0x66, 0x74, 0x79, 0x70)
}

/// The box at `p` holds media or describes it: `mdat`, `moov`, `meta` or
/// `moof`.
pub open spec fn is_media(d: Seq<u8>, p: int) -> bool {
    ||| four(d, p + 4, 0x6D, 0x64, 0x61, 0x74)
    ||| four(d, p + 4, 0x6D, 0x6F, 0x6F, 0x76)
    ||| four(d, p + 4, 0x6D, 0x65, 0x74, 0x61)
    ||| four(d, p + 4, 0x6D, 0x6F, 0x6F, 0x66)
}

/// The box at `p` tells that it goes up to `q`: by its 32-bit size, or by the
/// 64-bit size behind its type where the 32-bit size is 1.
pub open spec fn reaches(d: Seq<u8>, p: int, q: int) -> bool {
    if big32(d, p) == 1 {
        p + 16 <= d.len() && q - p >= 16 && q - p == big32(d, p + 8) * 4294967296 + big32(d, p + 12)
    } else {
        q - p >= 8 && q - p == big32(d, p)
    }
}

/// A file starts at `start`: a small `ftyp` box.
pub open spec fn file_starts(d: Seq<u8>, start: int) -> bool {
    &&& is_file_type(d, start)
    &&& 16 <= big32(d, start) <= 256
    &&& big32(d, start) % 4 == 0
}

/// Boxes of one file lie one after another between the places `ps`; all
/// but the last end in the input.
pub open spec fn boxes(d: Seq<u8>, ps: Seq<int>) -> bool {
    &&& ps.len() >= 2
    &&& 0 <= ps[0]
    &&& d.len() <= MAX_INPUT
    &&& file_starts(d, ps[0])
    &&& forall|k: int|
        #![trigger ps[k]]
        0 <= k < ps.len() - 1 ==> ps[k] + 8 <= d.len() && belongs(d, ps[k]) && reaches(
            d,
            ps[k],
            ps[k + 1],
        )
    &&& forall|k: int| #![trigger ps[k]] 0 < k < ps.len() - 1 ==> !is_file_type(d, ps[k])
}

/// One of the boxes from the `k`-th on holds media or describes it.
pub open spec fn media_from(d: Seq<u8>, ps: Seq<int>, k: int) -> bool {
    exists|j: int| #![trigger ps[j]] k <= j < ps.len() - 1 && is_media(d, ps[j])
}

/// Nothing at `p` goes on with the file: there is no room for the header of
/// a box, another file starts, or there is no box of a file that tells its
/// length.
pub open spec fn file_ends(d: Seq<u8>, p: int) -> bool {
    ||| p + 8 > d.len()
    ||| is_file_type(d, p)
    ||| !belongs(d, p)
    ||| forall|q: int| !#[trigger] reaches(d, p, q)
}

/// The file name extension for the brand at `p`.
pub open spec fn extension_at(d: Seq<u8>, p: int) -> Seq<char> {
    if four(d, p, 0x71, 0x74, 0x20, 0x20) {
        "mov"@
    } else if four(d, p, 0x68, 0x65, 0x69, 0x63) || four(d, p, 0x68, 0x65, 0x69, 0x78) || four(
        d,
        p,
        0x6D,
        0x69,
        0x66,
        0x31,
    ) || four(d, p, 0x6D, 0x73, 0x66, 0x31) || four(d, p, 0x68, 0x65, 0x76, 0x63) {
        "heic"@
    } else if four(d, p, 0x61, 0x76, 0x69, 0x66) {
        "avif"@
    } else {
        "mp4"@
    }
}

proof fn lemma_kind(d: Seq<u8>, p: int)
    requires
        0 <= p,
        p + 8 <= d.len(),
    ensures
        belongs(d, p) == is_top_level(be32(d, p + 4)),
        is_media(d, p) == is_payload(be32(d, p + 4)),
        is_file_type(d, p) == (be32(d, p + 4) == 0x66747970),
{
}

proof fn lemma_brand(d: Seq<u8>, p: int)
    requires
        0 <= p,
        p + 4 <= d.len(),
    ensures
        extension_at(d, p) == extension_of(be32(d, p)),
{
}

proof fn lemma_reach(d: Seq<u8>, p: int, q: int)
    requires
        0 <= p,
        p + 8 <= d.len(),
    ensures
        reaches(d, p, q) == (box_len(d, p) == Some(q - p)),
{
}

proof fn lemma_starts(d: Seq<u8>, start: int)
    requires
        0 <= start,
        file_starts(d, start),
    ensures
        crate::carve::has_magic(BuiltinCarver::IsoBmff(IsoBmff).signature(), d, start),
{
    let c = BuiltinCarver::IsoBmff(IsoBmff);
    lemma_four(d, start + 4, 0x66, 0x74, 0x79, 0x70);
    assert(start + c.signature().magic_offset == start + 4);
    lemma_magic(c, d, start, 0);
}

/// A walk does not come back, and does not forget what it has seen.
proof fn lemma_onwards(d: Seq<u8>, start: int, pos: int, seen: bool)
    requires
        pos <= u64::MAX,
        d.len() <= MAX_INPUT,
    ensures
        walk(d, start, pos, seen).0 >= pos,
        seen ==> walk(d, start, pos, seen).1,
    decreases room(pos, d.len() as int),
{
    if pos - start < crate::carve::formats::isobmff::MAX_LEN && holds(d, pos, 8) {
        if let Some(len) = box_len(d, pos) {
            if len > 0 && pos + len <= u64::MAX && pos + len <= d.len() {
                lemma_onwards(d, start, pos + len, seen || is_payload(be32(d, pos + 4)));
            }
        }
    }
}

proof fn lemma_places(d: Seq<u8>, ps: Seq<int>, i: int, j: int)
    requires
        boxes(d, ps),
        0 <= i <= j < ps.len(),
    ensures
        ps[i] + 8 * (j - i) <= ps[j],
    decreases j - i,
{
    if i < j {
        lemma_places(d, ps, i, j - 1);
        assert(reaches(d, ps[j - 1], ps[j - 1 + 1]));
    }
}

proof fn lemma_media(d: Seq<u8>, ps: Seq<int>, k: int)
    requires
        0 <= k < ps.len() - 1,
    ensures
        media_from(d, ps, k) == (is_media(d, ps[k]) || media_from(d, ps, k + 1)),
{
    if media_from(d, ps, k) {
        let j = choose|j: int| #![trigger ps[j]] k <= j < ps.len() - 1 && is_media(d, ps[j]);
        assert(ps[j] == ps[j]);
    }
    if media_from(d, ps, k + 1) {
        let j = choose|j: int| #![trigger ps[j]] k + 1 <= j < ps.len() - 1 && is_media(d, ps[j]);
        assert(ps[j] == ps[j]);
    }
}

/// The walk steps over one box.
#[verifier::rlimit(40)]
proof fn lemma_step(d: Seq<u8>, start: int, p: int, q: int, seen: bool)
    requires
        0 <= start <= p,
        p + 8 <= d.len() <= MAX_INPUT,
        belongs(d, p),
        p > start ==> !is_file_type(d, p),
        reaches(d, p, q),
        p - start < 68719476736,
        q <= u64::MAX,
    ensures
        walk(d, start, p, seen) == if q > d.len() {
            (q, seen || is_media(d, p))
        } else {
            walk(d, start, q, seen || is_media(d, p))
        },
{
    lemma_kind(d, p);
    lemma_reach(d, p, q);
}

/// The walk goes through the boxes from place to place.
#[verifier::rlimit(40)]
proof fn lemma_through(d: Seq<u8>, ps: Seq<int>, k: int, seen: bool)
    requires
        boxes(d, ps),
        0 <= k < ps.len(),
        ps[ps.len() - 2] - ps[0] < 68719476736,
        ps.last() <= u64::MAX,
    ensures
        walk(d, ps[0], ps[k], seen) == if ps.last() > d.len() && k < ps.len() - 1 {
            (ps.last(), seen || media_from(d, ps, k))
        } else {
            walk(d, ps[0], ps.last(), seen || media_from(d, ps, k))
        },
    decreases ps.len() - k,
{
    if k < ps.len() - 1 {
        let p = ps[k];
        assert(reaches(d, p, ps[k + 1]));
        lemma_places(d, ps, 0, k);
        lemma_places(d, ps, k, ps.len() - 2);
        if k < ps.len() - 2 {
            assert(ps[k + 1] + 8 <= d.len());
        }
        lemma_step(d, ps[0], p, ps[k + 1], seen);
        lemma_media(d, ps, k);
        if ps[k + 1] <= d.len() {
            lemma_through(d, ps, k + 1, seen || is_media(d, p));
        } else {
            assert(!media_from(d, ps, k + 1));
        }
    }
}

/// A video is carved whole: boxes of a file, one after another by the sizes
/// that they tell, are measured at least to the end of the last of them,
/// whatever they hold and whatever follows. The brand tells the extension.
#[verifier::rlimit(40)]
pub proof fn lemma_all_boxes_are_carved(d: Seq<u8>, ps: Seq<int>)
    requires
        boxes(d, ps),
        media_from(d, ps, 0),
        ps.last() <= d.len(),
        24 < ps.last() - ps[0] <= 68719476736,
    ensures
        IsoBmff.measured(d, ps[0]) matches Some((len, extension)) && len >= ps.last() - ps[0]
            && len <= 68719476736 && extension == extension_at(d, ps[0] + 8),
        crate::carve::hit(BuiltinCarver::IsoBmff(IsoBmff), d, ps[0]) == IsoBmff.measured(d, ps[0]),
{
    lemma_places(d, ps, 0, ps.len() - 2);
    assert(reaches(d, ps[ps.len() - 2], ps[ps.len() - 2 + 1]));
    lemma_through(d, ps, 0, false);
    lemma_onwards(d, ps[0], ps.last(), true);
    lemma_kind(d, ps[0]);
    lemma_brand(d, ps[0] + 8);
    lemma_starts(d, ps[0]);
}

/// A video ends with its last box: where nothing behind the boxes goes on
/// with the file, it is measured exactly to their end. A last box that
/// tells more than the input holds counts in full, up to the longest file
/// of 64 GiB. A file without media, or of 24 bytes at most, is none.
#[verifier::rlimit(40)]
pub proof fn lemma_nothing_else_is_carved(d: Seq<u8>, ps: Seq<int>)
    requires
        boxes(d, ps),
        ps[ps.len() - 2] - ps[0] < 68719476736,
        ps.last() <= u64::MAX,
        ps.last() > d.len() || ps.last() - ps[0] >= 68719476736 || file_ends(d, ps.last()),
        ps[0] + 12 <= d.len(),
    ensures
        ({
            let len = ps.last() - ps[0];
            carved(
                BuiltinCarver::IsoBmff(IsoBmff),
                d,
                ps[0],
                if !media_from(d, ps, 0) || len <= 24 {
                    None
                } else if len <= 68719476736 {
                    Some((len, extension_at(d, ps[0] + 8)))
                } else {
                    Some((68719476736, extension_at(d, ps[0] + 8)))
                },
            )
        }),
{
    let q = ps.last();
    lemma_places(d, ps, 0, ps.len() - 2);
    assert(reaches(d, ps[ps.len() - 2], ps[ps.len() - 2 + 1]));
    lemma_through(d, ps, 0, false);
    if q + 8 <= d.len() {
        lemma_kind(d, q);
        if let Some(len) = box_len(d, q) {
            lemma_reach(d, q, q + len);
        }
    }
    lemma_kind(d, ps[0]);
    lemma_brand(d, ps[0] + 8);
    lemma_starts(d, ps[0]);
}

/// Nothing is carved where no file starts.
pub proof fn lemma_no_file(d: Seq<u8>, start: int)
    requires
        0 <= start,
        !file_starts(d, start),
    ensures
        carved(BuiltinCarver::IsoBmff(IsoBmff), d, start, None),
{
    if start + 8 <= d.len() {
        lemma_kind(d, start);
    }
}

} // verus!
