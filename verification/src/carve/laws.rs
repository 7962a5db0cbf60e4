//! What a scan promises as a whole.

use super::bytes::room;
use super::carver::{BuiltinCarver, Carver};
use super::{
    file_at, files_from, first_hit, hit, is_skipped, lemma_multiple_bound, offset_behind, selected,
    Found,
};
use crate::map::SectorStatus;
use vstd::prelude::*;

verus! {

/// `f` is a file of one of the formats `cs`: it starts at a multiple of
/// `align` that was rescued, lies in the input, and is what that format
/// measures there.
pub open spec fn is_file_of(
    f: Found,
    cs: Seq<BuiltinCarver>,
    d: Seq<u8>,
    map: Option<Seq<SectorStatus>>,
    align: int,
) -> bool {
    &&& 0 <= f.offset < d.len()
    &&& f.offset % align == 0
    &&& f.offset + f.len <= d.len()
    &&& !is_skipped(map, f.offset)
    &&& exists|i: int|
        0 <= i < cs.len() && hit(#[trigger] cs[i], d, f.offset) is Some && f == file_at(
            cs[i],
            d,
            map,
            f.offset,
        )
}

proof fn lemma_first_hit(cs: Seq<BuiltinCarver>, d: Seq<u8>, off: int, i: int)
    requires
        0 <= i,
    ensures
        first_hit(cs, d, off, i) matches Some(k) ==> i <= k < cs.len() && hit(
            cs[k],
            d,
            off,
        ) is Some,
    decreases cs.len() - i,
{
    if i < cs.len() && hit(cs[i], d, off) is None {
        lemma_first_hit(cs, d, off, i + 1);
    }
}

proof fn lemma_next_aligned(off: int, end: int, align: int)
    requires
        align > 0,
        off % align == 0,
        off >= 0,
        end >= 0,
    ensures
        (off + align) % align == 0,
        offset_behind(off, end, align) % align == 0,
        offset_behind(off, end, align) >= end,
        offset_behind(off, end, align) >= off + align,
{
    lemma_multiple_bound(end, align);
    vstd::arithmetic::div_mod::lemma_mod_add_multiples_vanish(off, align);
    vstd::arithmetic::div_mod::lemma_mod_multiples_basic((end + align - 1) / align, align);
}

proof fn lemma_files_behind(
    cs: Seq<BuiltinCarver>,
    d: Seq<u8>,
    map: Option<Seq<SectorStatus>>,
    align: int,
    off: int,
)
    requires
        align > 0,
        off >= 0,
        off % align == 0,
    ensures
        forall|i: int|
            0 <= i < files_from(cs, d, map, align, off).len() ==> {
                let f = #[trigger] files_from(cs, d, map, align, off)[i];
                f.offset >= off && is_file_of(f, cs, d, map, align)
            },
        forall|i: int, j: int|
            0 <= i < j < files_from(cs, d, map, align, off).len() ==> {
                let f = #[trigger] files_from(cs, d, map, align, off)[i];
                let g = #[trigger] files_from(cs, d, map, align, off)[j];
                f.offset < g.offset && f.offset + f.len <= g.offset
            },
    decreases room(off, d.len() as int),
{
    let all = files_from(cs, d, map, align, off);
    if off < d.len() {
        lemma_first_hit(cs, d, off, 0);
        lemma_next_aligned(off, 0, align);
        match first_hit(cs, d, off, 0) {
            Some(k) if !is_skipped(map, off) => {
                let f = file_at(cs[k], d, map, off);
                let next = offset_behind(off, off + f.len, align);
                let rest = files_from(cs, d, map, align, next);
                if off + f.len >= 0 {
                    lemma_next_aligned(off, off + f.len, align);
                } else {
                    vstd::arithmetic::div_mod::lemma_mod_multiples_basic(
                        (off + f.len + align - 1) / align,
                        align,
                    );
                }
                lemma_files_behind(cs, d, map, align, next);
                assert(all =~= seq![f] + rest);
                assert(is_file_of(f, cs, d, map, align)) by {
                    assert(hit(cs[k], d, f.offset) is Some);
                }
                assert forall|i: int| 0 <= i < all.len() implies {
                    let f = #[trigger] all[i];
                    f.offset >= off && is_file_of(f, cs, d, map, align)
                } by {
                    if i > 0 {
                        assert(all[i] == rest[i - 1]);
                    }
                }
                assert forall|i: int, j: int| 0 <= i < j < all.len() implies {
                    let f = #[trigger] all[i];
                    let g = #[trigger] all[j];
                    f.offset < g.offset && f.offset + f.len <= g.offset
                } by {
                    assert(all[j] == rest[j - 1]);
                    if i > 0 {
                        assert(all[i] == rest[i - 1]);
                    }
                }
            },
            _ => {
                lemma_files_behind(cs, d, map, align, off + align);
                let rest = files_from(cs, d, map, align, off + align);
                assert(all == rest);
                assert forall|i: int| 0 <= i < all.len() implies {
                    let f = #[trigger] all[i];
                    f.offset >= off && is_file_of(f, cs, d, map, align)
                } by {
                    assert(rest[i].offset >= off + align);
                }
            },
        }
    }
}

/// The files of a scan are real hits of the selected formats: each starts
/// at an aligned, rescued offset with the signature of its format, lies in
/// the input, and is what the format measures.
pub proof fn lemma_files_are_hits(
    cs: Seq<BuiltinCarver>,
    d: Seq<u8>,
    map: Option<Seq<SectorStatus>>,
    align: int,
    i: int,
)
    requires
        align > 0,
        0 <= i < files_from(cs, d, map, align, 0).len(),
    ensures
        is_file_of(files_from(cs, d, map, align, 0)[i], cs, d, map, align),
{
    vstd::arithmetic::div_mod::lemma_small_mod(0, align as nat);
    lemma_files_behind(cs, d, map, align, 0);
}

/// The files of a scan come in the order of their offsets and do not
/// overlap: no byte of the input is carved twice.
pub proof fn lemma_files_do_not_overlap(
    cs: Seq<BuiltinCarver>,
    d: Seq<u8>,
    map: Option<Seq<SectorStatus>>,
    align: int,
    i: int,
    j: int,
)
    requires
        align > 0,
        0 <= i < j < files_from(cs, d, map, align, 0).len(),
    ensures
        ({
            let f = files_from(cs, d, map, align, 0)[i];
            let g = files_from(cs, d, map, align, 0)[j];
            f.offset < g.offset && f.offset + f.len <= g.offset
        }),
{
    vstd::arithmetic::div_mod::lemma_small_mod(0, align as nat);
    lemma_files_behind(cs, d, map, align, 0);
}

/// Some file of `files` starts at `off` or reaches over it.
pub open spec fn is_covered(files: Seq<Found>, off: int) -> bool {
    exists|i: int|
        0 <= i < files.len() && (#[trigger] files[i]).offset <= off && (files[i].offset == off
            || off < files[i].offset + files[i].len)
}

/// Two multiples that differ do so by at least one alignment.
proof fn lemma_multiples_apart(a: int, b: int, align: int)
    requires
        align > 0,
        a % align == 0,
        b % align == 0,
        a < b,
    ensures
        a + align <= b,
{
    vstd::arithmetic::div_mod::lemma_fundamental_div_mod(a, align);
    vstd::arithmetic::div_mod::lemma_fundamental_div_mod(b, align);
    let x = a / align;
    let y = b / align;
    assert(x < y) by (nonlinear_arith)
        requires
            align * x < align * y,
            align > 0,
    ;
    assert(align * x + align <= align * y) by (nonlinear_arith)
        requires
            x + 1 <= y,
            align > 0,
    ;
}

proof fn lemma_covered_from(
    cs: Seq<BuiltinCarver>,
    d: Seq<u8>,
    map: Option<Seq<SectorStatus>>,
    align: int,
    from: int,
    off: int,
)
    requires
        align > 0,
        0 <= from <= off < d.len(),
        from % align == 0,
        off % align == 0,
        !is_skipped(map, off),
        first_hit(cs, d, off, 0) is Some,
    ensures
        is_covered(files_from(cs, d, map, align, from), off),
    decreases room(from, d.len() as int),
{
    let all = files_from(cs, d, map, align, from);
    if from < off {
        lemma_multiples_apart(from, off, align);
    }
    match first_hit(cs, d, from, 0) {
        Some(k) if !is_skipped(map, from) => {
            let f = file_at(cs[k], d, map, from);
            let end = from + f.len;
            let next = offset_behind(from, end, align);
            let rest = files_from(cs, d, map, align, next);
            assert(all =~= seq![f] + rest);
            assert(all[0] == f);
            if end >= 0 {
                lemma_next_aligned(from, end, align);
                lemma_multiple_bound(end, align);
            } else {
                let q = (end + align - 1) / align;
                lemma_next_aligned(from, 0, align);
                vstd::arithmetic::div_mod::lemma_fundamental_div_mod(end + align - 1, align);
                vstd::arithmetic::div_mod::lemma_mod_bound(end + align - 1, align);
                assert(align * q == q * align) by (nonlinear_arith);
                assert(next == from + align);
            }
            if next <= off {
                lemma_covered_from(cs, d, map, align, next, off);
                let i = choose|i: int|
                    0 <= i < rest.len() && (#[trigger] rest[i]).offset <= off && (rest[i].offset
                        == off || off < rest[i].offset + rest[i].len);
                assert(all[i + 1] == rest[i]);
            } else if from < off {
                lemma_multiples_apart(off, next, align);
            }
        },
        _ => {
            lemma_next_aligned(from, 0, align);
            lemma_covered_from(cs, d, map, align, from + align, off);
        },
    }
}

/// Nothing is missed: wherever a selected format has a file at an aligned,
/// rescued offset, a scan reports a file that starts there or one that
/// reaches over that offset.
pub proof fn lemma_nothing_is_missed(
    cs: Seq<BuiltinCarver>,
    d: Seq<u8>,
    map: Option<Seq<SectorStatus>>,
    align: int,
    off: int,
    k: int,
)
    requires
        align > 0,
        0 <= off < d.len(),
        off % align == 0,
        !is_skipped(map, off),
        0 <= k < cs.len(),
        hit(cs[k], d, off) is Some,
    ensures
        is_covered(files_from(cs, d, map, align, 0), off),
{
    lemma_some_hit(cs, d, off, 0, k);
    vstd::arithmetic::div_mod::lemma_small_mod(0, align as nat);
    lemma_covered_from(cs, d, map, align, 0, off);
}

proof fn lemma_some_hit(cs: Seq<BuiltinCarver>, d: Seq<u8>, off: int, i: int, k: int)
    requires
        0 <= i <= k < cs.len(),
        hit(cs[k], d, off) is Some,
    ensures
        first_hit(cs, d, off, i) is Some,
    decreases k - i,
{
    if hit(cs[i], d, off) is None {
        lemma_some_hit(cs, d, off, i + 1, k);
    }
}

/// Only formats that were asked for are selected, and all of those that are
/// known.
pub proof fn lemma_selected(cs: Seq<BuiltinCarver>, names: Seq<Seq<char>>, c: BuiltinCarver)
    ensures
        selected(cs, Some(names)).contains(c) <==> cs.contains(c) && names.contains(
            c.signature().name,
        ),
        selected(cs, None) == cs,
    decreases cs.len(),
{
    if cs.len() > 0 {
        let rest = cs.drop_last();
        lemma_selected(rest, names, c);
        let before = selected(rest, Some(names));
        let all = selected(cs, Some(names));
        assert(cs =~= rest.push(cs.last()));
        if rest.contains(c) {
            let i = choose|i: int| 0 <= i < rest.len() && rest[i] == c;
            assert(cs[i] == c);
        }
        if cs.contains(c) && !rest.contains(c) {
            let i = choose|i: int| 0 <= i < cs.len() && cs[i] == c;
            assert(i == cs.len() - 1 || rest[i] == c);
        }
        if cs.last() == c {
            assert(cs[cs.len() - 1] == c);
        }
        if names.contains(cs.last().signature().name) {
            assert(all == before.push(cs.last()));
            assert(all[all.len() - 1] == cs.last());
            if before.contains(c) {
                let i = choose|i: int| 0 <= i < before.len() && before[i] == c;
                assert(all[i] == c);
            }
            if all.contains(c) && !before.contains(c) {
                let i = choose|i: int| 0 <= i < all.len() && all[i] == c;
                assert(i == all.len() - 1 || before[i] == c);
            }
        }
        assert(selected(cs, None) =~= cs);
    } else {
        assert(!cs.contains(c));
    }
}

/// With a map in which all of the input is rescued, a scan finds what it
/// finds without a map.
pub proof fn lemma_full_map_changes_nothing(
    cs: Seq<BuiltinCarver>,
    d: Seq<u8>,
    m: Seq<SectorStatus>,
    align: int,
    off: int,
)
    requires
        align > 0,
        off >= 0,
        d.len() <= m.len(),
        forall|i: int| 0 <= i < m.len() ==> #[trigger] m[i] == SectorStatus::Rescued,
    ensures
        files_from(cs, d, Some(m), align, off) == files_from(cs, d, None, align, off),
    decreases room(off, d.len() as int),
{
    if off < d.len() {
        match first_hit(cs, d, off, 0) {
            Some(k) => {
                let f = file_at(cs[k], d, None, off);
                assert(file_at(cs[k], d, Some(m), off) =~= f);
                lemma_full_map_changes_nothing(
                    cs,
                    d,
                    m,
                    align,
                    offset_behind(off, off + f.len, align),
                );
            },
            None => {
                lemma_full_map_changes_nothing(cs, d, m, align, off + align);
            },
        }
    }
}

/// Without a map nothing is called damaged.
pub proof fn lemma_no_map_no_damage(
    cs: Seq<BuiltinCarver>,
    d: Seq<u8>,
    align: int,
    i: int,
)
    requires
        align > 0,
        0 <= i < files_from(cs, d, None, align, 0).len(),
    ensures
        !files_from(cs, d, None, align, 0)[i].damaged,
{
    lemma_files_are_hits(cs, d, None, align, i);
}

} // verus!
