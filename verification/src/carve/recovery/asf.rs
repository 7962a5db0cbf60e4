//! WMV and WMA files.

use super::{carved, four, lemma_magic, lemma_word, little32};
use crate::carve::bytes::{le64, room, stands_at};
use crate::carve::carver::{BuiltinCarver, Carver};
use crate::carve::formats::asf::{
    data_guid, header_guid, index_guid, is_object, simple_index_guid, walk, Asf,
};
use vstd::prelude::*;

verus! {

/// The identifier of the header object is at `p`.
pub open spec fn is_header(d: Seq<u8>, p: int) -> bool {
    &&& four(d, p, 0x30, 0x26, 0xB2, 0x75)
    &&& four(d, p + 4, 0x8E, 0x66, 0xCF, 0x11)
    &&& four(d, p + 8, 0xA6, 0xD9, 0x00, 0xAA)
    &&& four(d, p + 12, 0x00, 0x62, 0xCE, 0x6C)
}

/// The identifier of the data object is at `p`.
pub open spec fn is_data(d: Seq<u8>, p: int) -> bool {
    &&& four(d, p, 0x36, 0x26, 0xB2, 0x75)
    &&& four(d, p + 4, 0x8E, 0x66, 0xCF, 0x11)
    &&& four(d, p + 8, 0xA6, 0xD9, 0x00, 0xAA)
    &&& four(d, p + 12, 0x00, 0x62, 0xCE, 0x6C)
}

/// The identifier of the simple index object or of the index object is at
/// `p`.
pub open spec fn is_index(d: Seq<u8>, p: int) -> bool {
    ||| {
        &&& four(d, p, 0x90, 0x08, 0x00, 0x33)
        &&& four(d, p + 4, 0xB1, 0xE5, 0xCF, 0x11)
        &&& four(d, p + 8, 0x89, 0xF4, 0x00, 0xA0)
        &&& four(d, p + 12, 0xC9, 0x03, 0x49, 0xCB)
    }
    ||| {
        &&& four(d, p, 0xD3, 0x29, 0xE2, 0xD6)
        &&& four(d, p + 4, 0xDA, 0x35, 0xD1, 0x11)
        &&& four(d, p + 8, 0x90, 0x34, 0x00, 0xA0)
        &&& four(d, p + 12, 0xC9, 0x03, 0x49, 0xBE)
    }
}

/// The size that the object at `p` tells behind its identifier of 16 bytes,
/// in 64 bits.
pub open spec fn size_at(d: Seq<u8>, p: int) -> int {
    little32(d, p + 16) + 4294967296 * little32(d, p + 20)
}

/// An object is at `p`, with a size that counts its own header of 24 bytes.
pub open spec fn object(d: Seq<u8>, p: int) -> bool {
    0 <= p && p + 24 <= d.len() && size_at(d, p) >= 24
}

/// The object at `p` goes on with a file: it is a data or index object.
pub open spec fn goes_on(d: Seq<u8>, p: int) -> bool {
    object(d, p) && (is_data(d, p) || is_index(d, p))
}

/// A header object of at most 16 GiB and the data and index objects behind it lie one
/// after another between the places `ps`.
pub open spec fn objects(d: Seq<u8>, ps: Seq<int>) -> bool {
    &&& ps.len() >= 2
    &&& object(d, ps[0])
    &&& is_header(d, ps[0])
    &&& size_at(d, ps[0]) <= 17179869184
    &&& forall|k: int|
        #![trigger ps[k]]
        0 <= k < ps.len() - 1 ==> ps[k + 1] == ps[k] + size_at(d, ps[k])
    &&& forall|k: int|
        #![trigger ps[k]]
        0 < k < ps.len() - 1 ==> goes_on(d, ps[k]) && ps[k] - ps[0] < 17179869184
}

/// One of the objects from the `k`-th on has data.
pub open spec fn data_from(d: Seq<u8>, ps: Seq<int>, k: int) -> bool {
    exists|j: int| #![trigger ps[j]] k <= j < ps.len() - 1 && is_data(d, ps[j])
}

proof fn lemma_sixteen(d: Seq<u8>, p: int, w: Seq<u8>)
    requires
        w.len() == 16,
    ensures
        stands_at(d, p, w) == (four(d, p, w[0], w[1], w[2], w[3]) && four(
            d,
            p + 4,
            w[4],
            w[5],
            w[6],
            w[7],
        ) && four(d, p + 8, w[8], w[9], w[10], w[11]) && four(
            d,
            p + 12,
            w[12],
            w[13],
            w[14],
            w[15],
        )),
{
    lemma_word(d, p, w);
    if stands_at(d, p, w) {
        assert(d[p + 0] == w[0] && d[p + 1] == w[1] && d[p + 2] == w[2] && d[p + 3] == w[3]);
        assert(d[p + 4] == w[4] && d[p + 5] == w[5] && d[p + 6] == w[6] && d[p + 7] == w[7]);
        assert(d[p + 8] == w[8] && d[p + 9] == w[9] && d[p + 10] == w[10] && d[p + 11] == w[11]);
        assert(d[p + 12] == w[12] && d[p + 13] == w[13] && d[p + 14] == w[14] && d[p + 15]
            == w[15]);
    }
}

/// The identifiers and sizes of objects, byte by byte.
pub proof fn lemma_kinds(d: Seq<u8>, p: int)
    requires
        0 <= p,
    ensures
        is_header(d, p) == stands_at(d, p, header_guid()),
        is_data(d, p) == stands_at(d, p, data_guid()),
        is_index(d, p) == (stands_at(d, p, simple_index_guid()) || stands_at(d, p, index_guid())),
        object(d, p) == is_object(d, p),
        size_at(d, p) == le64(d, p + 16),
        size_at(d, p) >= 0,
{
    lemma_sixteen(d, p, header_guid());
    lemma_sixteen(d, p, data_guid());
    lemma_sixteen(d, p, simple_index_guid());
    lemma_sixteen(d, p, index_guid());
}

proof fn lemma_start(d: Seq<u8>, start: int)
    requires
        0 <= start,
        is_header(d, start),
    ensures
        crate::carve::has_magic(BuiltinCarver::Asf(Asf).signature(), d, start),
{
    let c = BuiltinCarver::Asf(Asf);
    lemma_kinds(d, start);
    assert(start + c.signature().magic_offset == start);
    lemma_magic(c, d, start, 0);
}

proof fn lemma_onwards(d: Seq<u8>, start: int, pos: int, seen: bool)
    requires
        0 <= pos,
    ensures
        walk(d, start, pos, seen).0 >= pos,
        seen ==> walk(d, start, pos, seen).1,
    decreases room(pos, start + crate::carve::formats::asf::MAX_LEN),
{
    if pos - start < crate::carve::formats::asf::MAX_LEN && is_object(d, pos) {
        lemma_onwards(d, start, pos + le64(d, pos + 16), true);
        lemma_onwards(d, start, pos + le64(d, pos + 16), seen);
    }
}

proof fn lemma_step(d: Seq<u8>, start: int, p: int, seen: bool)
    requires
        0 <= start <= p,
        goes_on(d, p),
        p - start < 17179869184,
    ensures
        walk(d, start, p, seen) == walk(d, start, p + size_at(d, p), seen || is_data(d, p)),
{
    lemma_kinds(d, p);
}

proof fn lemma_through(d: Seq<u8>, ps: Seq<int>, k: int, seen: bool)
    requires
        objects(d, ps),
        0 < k < ps.len(),
        ps[k] >= ps[0],
    ensures
        walk(d, ps[0], ps[k], seen) == walk(d, ps[0], ps.last(), seen || data_from(d, ps, k)),
        ps[k] <= ps.last(),
    decreases ps.len() - k,
{
    if k < ps.len() - 1 {
        assert(ps[k + 1] == ps[k] + size_at(d, ps[k]));
        lemma_step(d, ps[0], ps[k], seen);
        lemma_through(d, ps, k + 1, seen || is_data(d, ps[k]));
        lemma_data_from(d, ps, k);
    }
}

proof fn lemma_data_from(d: Seq<u8>, ps: Seq<int>, k: int)
    requires
        0 <= k < ps.len() - 1,
    ensures
        data_from(d, ps, k) == (is_data(d, ps[k]) || data_from(d, ps, k + 1)),
{
    if data_from(d, ps, k) {
        let j = choose|j: int| #![trigger ps[j]] k <= j < ps.len() - 1 && is_data(d, ps[j]);
        assert(ps[j] == ps[j]);
    }
    if data_from(d, ps, k + 1) {
        let j = choose|j: int| #![trigger ps[j]] k + 1 <= j < ps.len() - 1 && is_data(d, ps[j]);
        assert(ps[j] == ps[j]);
    }
}

/// A file is carved whole: all its objects are in it, by the sizes that they
/// tell, up to the longest file of 16 GiB.
pub proof fn lemma_all_objects_are_carved(d: Seq<u8>, ps: Seq<int>)
    requires
        objects(d, ps),
        data_from(d, ps, 0),
    ensures
        Asf.measured(d, ps[0]) matches Some((len, extension)) && extension == "wmv"@ && (len
            >= ps.last() - ps[0] || len == 17179869184) && len <= 17179869184,
        crate::carve::hit(BuiltinCarver::Asf(Asf), d, ps[0]) == Asf.measured(d, ps[0]),
{
    assert(ps[1] == ps[0] + size_at(d, ps[0]));
    lemma_kinds(d, ps[0]);
    lemma_data_from(d, ps, 0);
    lemma_through(d, ps, 1, false);
    lemma_onwards(d, ps[0], ps.last(), true);
    lemma_start(d, ps[0]);
}

/// A file ends with its last object, and is none without data.
pub proof fn lemma_no_other_object_is_carved(d: Seq<u8>, ps: Seq<int>)
    requires
        objects(d, ps),
        !goes_on(d, ps.last()) || ps.last() - ps[0] >= 17179869184,
    ensures
        carved(
            BuiltinCarver::Asf(Asf),
            d,
            ps[0],
            if !data_from(d, ps, 0) {
                None
            } else if ps.last() - ps[0] < 17179869184 {
                Some((ps.last() - ps[0], "wmv"@))
            } else {
                Some((17179869184, "wmv"@))
            },
        ),
{
    assert(ps[1] == ps[0] + size_at(d, ps[0]));
    lemma_kinds(d, ps[0]);
    lemma_data_from(d, ps, 0);
    lemma_through(d, ps, 1, false);
    lemma_kinds(d, ps.last());
    lemma_start(d, ps[0]);
}

/// Nothing is carved where no header object is, or one of more than 16 GiB.
pub proof fn lemma_no_header(d: Seq<u8>, start: int)
    requires
        0 <= start,
        !object(d, start) || !is_header(d, start) || size_at(d, start) > 17179869184,
    ensures
        carved(BuiltinCarver::Asf(Asf), d, start, None),
{
    lemma_kinds(d, start);
}

} // verus!
