//! What texts on the command line, and of the system, ask for and tell.

use crate::cli::{
    region_views, names_in, names_status, part_region, regions_in, spec_number, without_hyphens,
    Faulty, SpecFault,
};
use crate::device::{lies_on_source, told_device, told_sector_size, FileId};
use crate::image::source::BadRegion;
use crate::map::reading::{is_decimal, is_number, lemma_numbers_are_read, value};
use crate::map::SectorStatus;
use crate::text::laws::{
    is_printed, joined, lemma_cut_at_first, lemma_not_cut, lemma_space_is_trimmed,
    lemma_split_joined, only_space,
};
use crate::text::number::{radix_value, NumberError};
use crate::text::{split_on, trimmed};
use vstd::prelude::*;

verus! {

/// `piece` is the text `s` with space around it.
pub open spec fn is_around(piece: Seq<char>, s: Seq<char>) -> bool {
    exists|a: Seq<char>, b: Seq<char>| #[trigger]
        only_space(a) && #[trigger] only_space(b) && piece == a + s + b
}

proof fn lemma_around(piece: Seq<char>, s: Seq<char>)
    requires
        is_around(piece, s),
        s.len() > 0 ==> is_printed(s[0]) && is_printed(s.last()),
    ensures
        trimmed(piece) == s,
{
    let (a, b) = choose|a: Seq<char>, b: Seq<char>| #[trigger]
        only_space(a) && #[trigger] only_space(b) && piece == a + s + b;
    lemma_space_is_trimmed(a, s, b);
}

/// A list asks for the names in it, which have commas between them and
/// perhaps space around them.
pub proof fn lemma_names_are_listed(pieces: Seq<Seq<char>>, names: Seq<Seq<char>>)
    requires
        pieces.len() > 0,
        names.len() == pieces.len(),
        forall|k: int, i: int|
            0 <= k < pieces.len() && 0 <= i < pieces[k].len() ==> #[trigger] pieces[k][i] != ',',
        forall|k: int|
            #![trigger names[k]]
            0 <= k < names.len() ==> is_around(pieces[k], names[k]) && (names[k].len() > 0
                ==> is_printed(names[k][0]) && is_printed(names[k].last())),
    ensures
        names_in(joined(pieces, ',')) == names,
{
    lemma_split_joined(pieces, ',');
    assert forall|k: int| 0 <= k < names.len() implies trimmed(pieces[k])
        == #[trigger] names[k] by {
        lemma_around(pieces[k], names[k]);
    }
    assert(names_in(joined(pieces, ',')) =~= names);
}

/// A number with space around it is read.
proof fn lemma_number(piece: Seq<char>, w: Seq<char>, v: int)
    requires
        is_around(piece, w),
        is_number(w, v),
    ensures
        spec_number(piece) == Ok::<int, SpecFault>(v),
{
    assert(w.len() > 0 && is_printed(w[0]) && is_printed(w.last())) by {
        if is_decimal(w) && value(w, 10) == v {
            assert('0' <= w[0] <= '9' && '0' <= w[w.len() - 1] <= '9');
        } else {
            let d = w.skip(2);
            assert(d[d.len() - 1] == w.last());
        }
    }
    lemma_around(piece, w);
    lemma_numbers_are_read(w, v);
}

/// No character of `s` is `c`.
pub open spec fn is_without(s: Seq<char>, c: char) -> bool {
    forall|i: int| 0 <= i < s.len() ==> #[trigger] s[i] != c
}

/// `OFF+LEN` asks for a fault that never heals, `OFF+LEN@FAILS` for one that
/// heals after so many failed reads; numbers may have space around them.
pub proof fn lemma_faults_are_asked_for(
    off: Seq<char>,
    len: Seq<char>,
    fails: Option<Seq<char>>,
    a: (Seq<char>, int),
    b: (Seq<char>, int),
    c: (Seq<char>, int),
)
    requires
        is_around(off, a.0),
        is_number(a.0, a.1),
        is_around(len, b.0),
        is_number(b.0, b.1),
        a.1 + b.1 <= u64::MAX,
        is_without(off, '+'),
        is_without(off, '@'),
        is_without(len, '@'),
        fails matches Some(f) ==> is_around(f, c.0) && is_number(c.0, c.1) && c.1 <= u32::MAX,
    ensures
        part_region(
            match fails {
                Some(f) => off + seq!['+'] + len + seq!['@'] + f,
                None => off + seq!['+'] + len,
            },
        ) == Ok::<Faulty, SpecFault>(
            (
                a.1,
                a.1 + b.1,
                match fails {
                    Some(_) => Some(c.1),
                    None => None,
                },
            ),
        ),
{
    let range = off + seq!['+'] + len;
    assert forall|i: int| 0 <= i < range.len() implies #[trigger] range[i] != '@' by {
        if i < off.len() {
            assert(range[i] == off[i]);
        } else if i > off.len() {
            assert(range[i] == len[i - off.len() - 1]);
        }
    }
    lemma_cut_at_first(off, '+', len);
    lemma_number(off, a.0, a.1);
    lemma_number(len, b.0, b.1);
    match fails {
        Some(f) => {
            lemma_cut_at_first(range, '@', f);
            lemma_number(f, c.0, c.1);
        },
        None => {
            lemma_not_cut(range, '@');
        },
    }
}

/// A list of faults asks for each of them, in order.
pub proof fn lemma_fault_lists(parts: Seq<Seq<char>>, regions: Seq<Faulty>)
    requires
        parts.len() > 0,
        regions.len() == parts.len(),
        forall|k: int, i: int|
            0 <= k < parts.len() && 0 <= i < parts[k].len() ==> #[trigger] parts[k][i] != ',',
        forall|k: int|
            #![trigger parts[k]]
            0 <= k < parts.len() ==> part_region(parts[k]) == Ok::<Faulty, SpecFault>(regions[k]),
    ensures
        regions_in(split_on(joined(parts, ','), ',')) == Ok::<Seq<Faulty>, SpecFault>(regions),
{
    lemma_split_joined(parts, ',');
    lemma_regions(parts, regions);
}

proof fn lemma_regions(parts: Seq<Seq<char>>, regions: Seq<Faulty>)
    requires
        regions.len() == parts.len(),
        forall|k: int|
            #![trigger parts[k]]
            0 <= k < parts.len() ==> part_region(parts[k]) == Ok::<Faulty, SpecFault>(regions[k]),
    ensures
        regions_in(parts) == Ok::<Seq<Faulty>, SpecFault>(regions),
    decreases parts.len(),
{
    if parts.len() > 0 {
        let n = parts.len() - 1;
        assert forall|k: int| #![trigger parts.drop_last()[k]] 0 <= k < n implies part_region(
            parts.drop_last()[k],
        ) == Ok::<Faulty, SpecFault>(regions.drop_last()[k]) by {
            assert(parts[k] == parts.drop_last()[k]);
        }
        lemma_regions(parts.drop_last(), regions.drop_last());
        assert(part_region(parts[n]) == Ok::<Faulty, SpecFault>(regions[n]));
        assert(regions.drop_last().push(regions.last()) =~= regions);
    } else {
        assert(regions =~= Seq::empty());
    }
}

/// What is said of faults is said of the values that are given.
pub proof fn lemma_faults_are_given(v: Seq<BadRegion>, k: int)
    requires
        0 <= k < v.len(),
    ensures
        region_views(v).len() == v.len(),
        region_views(v)[k].0 == v[k].range.start,
        region_views(v)[k].1 == v[k].range.end,
        v[k].remaining_failures is None ==> region_views(v)[k].2 is None,
        v[k].remaining_failures matches Some(n) ==> region_views(v)[k].2 == Some(n as int),
{
}

/// A part without a `+` asks for nothing.
pub proof fn lemma_no_range(part: Seq<char>)
    requires
        is_without(part, '+'),
    ensures
        part_region(part) is Err,
{
    if let Some((range, fails)) = crate::text::split_first(part, '@') {
        crate::text::lemma_first_place(part, '@');
        assert forall|i: int| 0 <= i < range.len() implies #[trigger] range[i] != '+' by {
            assert(range[i] == part[i]);
        }
        lemma_not_cut(range, '+');
    } else {
        lemma_not_cut(part, '+');
    }
}

/// The character for a status names it.
pub proof fn lemma_characters_name_statuses(c: char, st: SectorStatus)
    ensures
        crate::map::reading::is_status(c, st) ==> names_status(seq![c], st),
{
}

/// Every status is named by its name.
pub proof fn lemma_names_name_statuses(st: SectorStatus)
    ensures
        names_status(
            match st {
                SectorStatus::NonTried => "non-tried"@,
                SectorStatus::NonTrimmed => "non-trimmed"@,
                SectorStatus::NonScraped => "non-scraped"@,
                SectorStatus::Bad => "bad-sector"@,
                SectorStatus::Rescued => "rescued"@,
            },
            st,
        ),
        names_status("bad"@, SectorStatus::Bad),
{
    reveal_strlit("non-tried");
    reveal_strlit("non-trimmed");
    reveal_strlit("non-scraped");
    reveal_strlit("bad-sector");
    reveal_strlit("rescued");
    reveal_strlit("bad");
}

proof fn lemma_hyphen(s: Seq<char>, k: int)
    requires
        0 <= k < s.len(),
        s[k] == '-',
    ensures
        without_hyphens(s.remove(k)) == without_hyphens(s),
    decreases s.len(),
{
    let t = s.drop_last();
    if k == s.len() - 1 {
        assert(s.remove(k) =~= t);
    } else {
        lemma_hyphen(t, k);
        assert(s.remove(k).drop_last() =~= t.remove(k));
        assert(s.remove(k).last() == s.last());
    }
}

/// Hyphens make no difference in the names of statuses, but for `bad` for
/// short and single characters.
pub proof fn lemma_hyphens_make_no_difference(s: Seq<char>, k: int, st: SectorStatus)
    requires
        s.len() > 2,
        0 <= k < s.len(),
        s[k] == '-',
        s.remove(k) != "bad"@,
    ensures
        names_status(s.remove(k), st) == names_status(s, st),
{
    lemma_hyphen(s, k);
    reveal_strlit("bad");
    if s == "bad"@ {
        assert(s[0] == 'b' && s[1] == 'a' && s[2] == 'd');
    }
}

/// A decimal number with space around it tells a sector size.
pub proof fn lemma_sector_size_is_told(text: Seq<char>, w: Seq<char>, v: int)
    requires
        is_around(text, w),
        is_decimal(w),
        value(w, 10) == v,
        v <= u32::MAX,
    ensures
        told_sector_size(text) == Some(v),
{
    assert('0' <= w[0] <= '9' && '0' <= w[w.len() - 1] <= '9');
    lemma_around(text, w);
    lemma_decimal(w, v);
}

proof fn lemma_decimal(w: Seq<char>, v: int)
    requires
        is_decimal(w),
        value(w, 10) == v,
        v <= u64::MAX,
    ensures
        radix_value(w, 10) == Ok::<int, NumberError>(v),
        v >= 0,
{
    assert('0' <= w[0] <= '9');
    if w.len() >= 2 {
        assert('0' <= w[1] <= '9');
    }
    crate::map::reading::lemma_value(w, 10);
}

/// Two decimal numbers with a colon between them tell a device.
pub proof fn lemma_device_is_told(
    text: Seq<char>,
    a: Seq<char>,
    b: Seq<char>,
    major: int,
    minor: int,
)
    requires
        is_around(text, a + seq![':'] + b),
        is_decimal(a),
        is_decimal(b),
        value(a, 10) == major,
        value(b, 10) == minor,
        major <= u32::MAX,
        minor <= u32::MAX,
    ensures
        told_device(text) == Some((major, minor)),
{
    let w = a + seq![':'] + b;
    assert('0' <= a[0] <= '9' && '0' <= b[b.len() - 1] <= '9');
    assert(w[0] == a[0] && w.last() == b[b.len() - 1]);
    lemma_around(text, w);
    assert forall|i: int| 0 <= i < a.len() implies #[trigger] a[i] != ':' by {}
    lemma_cut_at_first(a, ':', b);
    lemma_decimal(a, major);
    lemma_decimal(b, minor);
}

/// Nothing is written onto the source: an output on a filesystem of the
/// source device, on a part of it or on what is built on it, and the node
/// of the device itself, all lie on the source.
pub proof fn lemma_source_is_spared(src: FileId, out: FileId, k: int)
    requires
        src.is_block,
        out.dev == src.rdev || (out.is_block && out.rdev == src.rdev) || (0 <= k
            < out.under@.len() && out.under@[k] == src.rdev),
    ensures
        lies_on_source(src, out),
{
}

/// An output on other devices does not lie on the source, nor does any
/// where the source is no device.
pub proof fn lemma_other_outputs(src: FileId, out: FileId)
    requires
        !src.is_block || (out.dev != src.rdev && (!out.is_block || out.rdev != src.rdev) && (
        forall|k: int| 0 <= k < out.under@.len() ==> #[trigger] out.under@[k] != src.rdev)),
    ensures
        !lies_on_source(src, out),
{
}

} // verus!
