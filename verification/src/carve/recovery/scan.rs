//! What a scan tells of the files that it finds.

use super::{four, lemma_word};
use crate::carve::bytes::{room, stands_at};
use crate::carve::carver::{builtin_list, BuiltinCarver, Carver};
use crate::carve::formats::asf::Asf;
use crate::carve::formats::bmp::Bmp;
use crate::carve::formats::gif::Gif;
use crate::carve::formats::isobmff::IsoBmff;
use crate::carve::formats::jpeg::Jpeg;
use crate::carve::formats::matroska::Matroska;
use crate::carve::formats::mpeg::{MpegPs, MpegTs};
use crate::carve::formats::pdf::Pdf;
use crate::carve::formats::png::Png;
use crate::carve::formats::riff::Riff;
use crate::carve::formats::tiff::Tiff;
use crate::carve::{
    asked, file_at, files_from, first_hit, found_in, hit, is_skipped, offset_behind, selected,
    file_views, map_view, CarveOptions, CarvedFile, Found,
};
use crate::map::{RescueMap, SectorStatus};
use crate::text::number::{digits_of, hex_padded, repeated};
use vstd::prelude::*;

verus! {

/// The value of an upper-case hexadecimal digit.
pub open spec fn hex_digit(c: char) -> int {
    if '0' <= c <= '9' {
        c as int - 48
    } else {
        c as int - 55
    }
}

/// The number that upper-case hexadecimal digits stand for.
pub open spec fn hex_number(s: Seq<char>) -> int
    decreases s.len(),
{
    if s.len() == 0 {
        0
    } else {
        16 * hex_number(s.drop_last()) + hex_digit(s.last())
    }
}

/// All characters are upper-case hexadecimal digits.
pub open spec fn is_hex(s: Seq<char>) -> bool {
    forall|i: int| 0 <= i < s.len() ==> ('0' <= #[trigger] s[i] <= '9' || 'A' <= s[i] <= 'F')
}

/// A file name tells where the file was: `f`, at least ten digits of its
/// offset, and the extension.
pub open spec fn is_name(name: Seq<char>, offset: int, extension: Seq<char>) -> bool {
    exists|digits: Seq<char>| #[trigger]
        is_hex(digits) && name == seq!['f'] + digits + seq!['.'] + extension && digits.len() >= 10
            && (digits.len() > 10 ==> digits[0] != '0') && hex_number(digits) == offset
}

/// What is told of the file `f` holds of the `k`-th format: that format is
/// the first to have a file there; the file is cut off at the end of the
/// input, and then called truncated; it is called damaged if any byte of
/// it was not rescued.
pub open spec fn is_told(
    f: Found,
    cs: Seq<BuiltinCarver>,
    d: Seq<u8>,
    map: Option<Seq<SectorStatus>>,
    k: int,
) -> bool {
    let (len, extension) = hit(cs[k], d, f.offset)->0;
    &&& 0 <= k < cs.len()
    &&& hit(cs[k], d, f.offset) is Some
    &&& forall|j: int| 0 <= j < k ==> hit(#[trigger] cs[j], d, f.offset) is None
    &&& f.format == cs[k].signature().name
    &&& f.truncated == (f.offset + len > d.len())
    &&& f.len == if f.truncated {
        d.len() - f.offset
    } else {
        len
    }
    &&& is_name(f.name, f.offset, extension)
    &&& match map {
        Some(m) => {
            &&& 0 <= f.offset < m.len()
            &&& m[f.offset] == SectorStatus::Rescued
            &&& f.damaged <==> exists|i: int|
                f.offset <= i < f.offset + f.len && i < m.len() && #[trigger] m[i]
                    != SectorStatus::Rescued
        },
        None => !f.damaged,
    }
}

proof fn lemma_digits(n: int)
    requires
        0 <= n,
    ensures
        is_hex(digits_of(n, 16)),
        hex_number(digits_of(n, 16)) == n,
        digits_of(n, 16).len() > 1 ==> digits_of(n, 16)[0] != '0',
        n > 0 ==> digits_of(n, 16)[0] != '0',
        digits_of(n, 16).len() > 0,
    decreases n,
{
    let s = digits_of(n, 16);
    if n < 16 {
        assert(s.drop_last() =~= Seq::empty());
        assert(hex_number(s.drop_last()) == 0);
        assert(hex_digit(s.last()) == n);
    } else {
        let t = digits_of(n / 16, 16);
        lemma_digits(n / 16);
        assert(s.drop_last() =~= t);
        assert(s[0] == t[0]);
        assert(hex_digit(s.last()) == n % 16);
        assert forall|i: int| 0 <= i < s.len() implies ('0' <= #[trigger] s[i] <= '9' || 'A'
            <= s[i] <= 'F') by {
            if i < t.len() {
                assert(s[i] == t[i]);
            }
        }
    }
}

proof fn lemma_zeros(s: Seq<char>, k: int)
    requires
        0 <= k,
    ensures
        hex_number(repeated('0', k) + s) == hex_number(s),
    decreases k + s.len(),
{
    let t = repeated('0', k) + s;
    if s.len() > 0 {
        assert(t.drop_last() =~= repeated('0', k) + s.drop_last());
        lemma_zeros(s.drop_last(), k);
    } else if k > 0 {
        assert(t.drop_last() =~= repeated('0', k - 1) + s);
        lemma_zeros(s, k - 1);
    } else {
        assert(t =~= s);
    }
}

/// A number with zeros in front, in hexadecimal digits, stands for itself.
pub proof fn lemma_hex_padded(n: int, width: int)
    requires
        0 <= n,
    ensures
        is_hex(hex_padded(n, width)),
        hex_number(hex_padded(n, width)) == n,
        hex_padded(n, width).len() >= width,
        hex_padded(n, width).len() > width && hex_padded(n, width).len() > 1 ==> hex_padded(
            n,
            width,
        )[0] != '0',
{
    let s = digits_of(n, 16);
    let digits = hex_padded(n, width);
    lemma_digits(n);
    if s.len() < width {
        lemma_zeros(s, width - s.len());
        assert forall|i: int| 0 <= i < digits.len() implies ('0' <= #[trigger] digits[i] <= '9'
            || 'A' <= digits[i] <= 'F') by {
            if i >= width - s.len() {
                assert(digits[i] == s[i - (width - s.len())]);
            }
        }
    }
}

proof fn lemma_name(offset: int, extension: Seq<char>)
    requires
        0 <= offset,
    ensures
        is_name(seq!['f'] + hex_padded(offset, 10) + seq!['.'] + extension, offset, extension),
{
    lemma_hex_padded(offset, 10);
    assert(is_hex(hex_padded(offset, 10)));
}

proof fn lemma_first(cs: Seq<BuiltinCarver>, d: Seq<u8>, off: int, i: int)
    requires
        0 <= i,
        first_hit(cs, d, off, i) is Some,
    ensures
        ({
            let k = first_hit(cs, d, off, i)->0;
            &&& i <= k < cs.len()
            &&& hit(cs[k], d, off) is Some
            &&& forall|j: int| i <= j < k ==> hit(#[trigger] cs[j], d, off) is None
        }),
    decreases cs.len() - i,
{
    if hit(cs[i], d, off) is None {
        lemma_first(cs, d, off, i + 1);
    }
}

proof fn lemma_told_from(
    cs: Seq<BuiltinCarver>,
    d: Seq<u8>,
    map: Option<Seq<SectorStatus>>,
    align: int,
    off: int,
    i: int,
)
    requires
        align > 0,
        off >= 0,
        0 <= i < files_from(cs, d, map, align, off).len(),
    ensures
        exists|k: int| #[trigger]
            is_told(files_from(cs, d, map, align, off)[i], cs, d, map, k),
    decreases room(off, d.len() as int),
{
    let all = files_from(cs, d, map, align, off);
    match first_hit(cs, d, off, 0) {
        Some(k) if !is_skipped(map, off) => {
            let f = file_at(cs[k], d, map, off);
            let next = offset_behind(off, off + f.len, align);
            let rest = files_from(cs, d, map, align, next);
            assert(all =~= seq![f] + rest);
            if i == 0 {
                lemma_first(cs, d, off, 0);
                lemma_name(off, (hit(cs[k], d, off)->0).1);
                assert(is_told(f, cs, d, map, k));
                assert(all[0] == f);
            } else {
                lemma_told_from(cs, d, map, align, next, i - 1);
                assert(all[i] == rest[i - 1]);
            }
        },
        _ => {
            lemma_told_from(cs, d, map, align, off + align, i);
        },
    }
}

/// What a scan tells of a file is so: its format, its name, its length, and
/// whether it is truncated or damaged.
pub proof fn lemma_files_are_told(
    cs: Seq<BuiltinCarver>,
    d: Seq<u8>,
    map: Option<Seq<SectorStatus>>,
    align: int,
    i: int,
)
    requires
        align > 0,
        0 <= i < files_from(cs, d, map, align, 0).len(),
    ensures
        files_from(cs, d, map, align, 0)[i].offset % align == 0,
        exists|k: int| #[trigger]
            is_told(files_from(cs, d, map, align, 0)[i], cs, d, map, k),
{
    lemma_told_from(cs, d, map, align, 0, i);
    crate::carve::laws::lemma_files_are_hits(cs, d, map, align, i);
}

/// A file at an aligned, rescued place is found, unless a file before
/// reaches over that place.
pub proof fn lemma_files_are_found(
    cs: Seq<BuiltinCarver>,
    d: Seq<u8>,
    map: Option<Seq<SectorStatus>>,
    align: int,
    off: int,
    k: int,
)
    requires
        align > 0,
        0 <= off < d.len(),
        off % align == 0,
        map matches Some(m) ==> off < m.len() && m[off] == SectorStatus::Rescued,
        0 <= k < cs.len(),
        hit(cs[k], d, off) is Some,
    ensures
        exists|i: int|
            0 <= i < files_from(cs, d, map, align, 0).len() && ((#[trigger] files_from(
                cs,
                d,
                map,
                align,
                0,
            )[i]).offset == off || files_from(cs, d, map, align, 0)[i].offset < off < files_from(
                cs,
                d,
                map,
                align,
                0,
            )[i].offset + files_from(cs, d, map, align, 0)[i].len),
{
    crate::carve::laws::lemma_nothing_is_missed(cs, d, map, align, off, k);
    let files = files_from(cs, d, map, align, 0);
    let i = choose|i: int|
        0 <= i < files.len() && (#[trigger] files[i]).offset <= off && (files[i].offset == off
            || off < files[i].offset + files[i].len);
    assert(files[i].offset == off || files[i].offset < off);
}

/// A file is extracted whole: where a format is the first to have a file at
/// an aligned, rescued place, and no file before reaches over that place,
/// the scan tells of the file there, with the length and extension that
/// the format measures.
pub proof fn lemma_file_is_extracted(
    cs: Seq<BuiltinCarver>,
    d: Seq<u8>,
    map: Option<Seq<SectorStatus>>,
    align: int,
    off: int,
    k: int,
)
    requires
        align > 0,
        0 <= off < d.len(),
        off % align == 0,
        map matches Some(m) ==> off < m.len() && m[off] == SectorStatus::Rescued,
        0 <= k < cs.len(),
        hit(cs[k], d, off) is Some,
        forall|j: int| 0 <= j < k ==> hit(#[trigger] cs[j], d, off) is None,
        forall|i: int|
            0 <= i < files_from(cs, d, map, align, 0).len() ==> !((#[trigger] files_from(
                cs,
                d,
                map,
                align,
                0,
            )[i]).offset < off < files_from(cs, d, map, align, 0)[i].offset + files_from(
                cs,
                d,
                map,
                align,
                0,
            )[i].len),
    ensures
        exists|i: int|
            0 <= i < files_from(cs, d, map, align, 0).len() && (#[trigger] files_from(
                cs,
                d,
                map,
                align,
                0,
            )[i]).offset == off && is_told(files_from(cs, d, map, align, 0)[i], cs, d, map, k),
{
    lemma_files_are_found(cs, d, map, align, off, k);
    let files = files_from(cs, d, map, align, 0);
    let i = choose|i: int|
        0 <= i < files.len() && ((#[trigger] files[i]).offset == off || files[i].offset < off
            < files[i].offset + files[i].len);
    assert(files[i].offset == off);
    lemma_files_are_told(cs, d, map, align, i);
    let x = choose|x: int| #[trigger] is_told(files[i], cs, d, map, x);
    if x < k {
        assert(hit(cs[x], d, off) is None);
    }
    if k < x {
        assert(hit(cs[k], d, off) is None);
    }
    assert(x == k);
}

/// The bytes that a file of a format starts with.
pub open spec fn starts_with_signature(c: BuiltinCarver, d: Seq<u8>, p: int) -> bool {
    match c {
        BuiltinCarver::IsoBmff(_) => four(d, p + 4, 0x66, 0x74, 0x79, 0x70),
        BuiltinCarver::Riff(_) => four(d, p, 0x52, 0x49, 0x46, 0x46),
        BuiltinCarver::Matroska(_) => four(d, p, 0x1A, 0x45, 0xDF, 0xA3),
        BuiltinCarver::Asf(_) => super::asf::is_header(d, p),
        BuiltinCarver::Png(_) => super::png::signature_at(d, p),
        BuiltinCarver::Gif(_) => super::gif::image_at(d, p),
        BuiltinCarver::Bmp(_) => d[p] == 0x42 && d[p + 1] == 0x4D,
        BuiltinCarver::Tiff(_) => super::tiff::image_at(d, p),
        BuiltinCarver::Jpeg(_) => super::jpeg::photo_at(d, p),
        BuiltinCarver::MpegPs(_) => four(d, p, 0x00, 0x00, 0x01, 0xBA),
        BuiltinCarver::MpegTs(ts) => d[if ts.timestamps {
            p + 4
        } else {
            p
        }] == 0x47,
        BuiltinCarver::Pdf(_) => super::pdf::document_at(d, p),
    }
}

proof fn lemma_some_magic(c: BuiltinCarver, d: Seq<u8>, p: int) -> (k: int)
    requires
        hit(c, d, p) is Some,
    ensures
        0 <= k < c.signature().magics.len(),
        stands_at(d, p + c.signature().magic_offset, c.signature().magics[k]),
{
    let s = c.signature();
    choose|k: int|
        0 <= k < s.magics.len() && #[trigger] stands_at(d, p + s.magic_offset, s.magics[k])
}

/// The first bytes of a word that stands at `p`.
proof fn lemma_first_bytes(d: Seq<u8>, p: int, w: Seq<u8>)
    requires
        stands_at(d, p, w),
    ensures
        0 <= p,
        p + w.len() <= d.len(),
        w.len() > 0 ==> d[p] == w[0],
        w.len() > 1 ==> d[p + 1] == w[1],
        w.len() > 2 ==> d[p + 2] == w[2],
        w.len() > 3 ==> d[p + 3] == w[3],
        w.len() > 4 ==> d[p + 4] == w[4],
        w.len() > 5 ==> d[p + 5] == w[5],
        w.len() > 6 ==> d[p + 6] == w[6],
        w.len() > 7 ==> d[p + 7] == w[7],
{
    lemma_word(d, p, w);
    if w.len() > 0 {
        assert(d[p + 0] == w[0]);
    }
}

/// No file is found without the signature of its format.
#[verifier::rlimit(40)]
pub proof fn lemma_signature_is_needed(c: BuiltinCarver, d: Seq<u8>, p: int)
    requires
        0 <= p,
        hit(c, d, p) is Some,
    ensures
        starts_with_signature(c, d, p),
{
    let k = lemma_some_magic(c, d, p);
    let w = c.signature().magics[k];
    match c {
        BuiltinCarver::IsoBmff(_) => lemma_first_bytes(d, p + 4, w),
        BuiltinCarver::Asf(_) => {
            assert(p + c.signature().magic_offset == p);
            super::asf::lemma_kinds(d, p);
        },
        BuiltinCarver::Pdf(_) => {
            assert(p + c.signature().magic_offset == p);
            super::pdf::lemma_tags(d, p);
        },
        BuiltinCarver::MpegTs(ts) => lemma_first_bytes(d, p + ts.sync_offset(), w),
        BuiltinCarver::Gif(_) => {
            assert(p + c.signature().magic_offset == p);
            lemma_first_bytes(d, p, w);
            assert(k == 0 || k == 1);
        },
        BuiltinCarver::Tiff(_) => {
            assert(p + c.signature().magic_offset == p);
            lemma_first_bytes(d, p, w);
            assert(k == 0 || k == 1);
        },
        _ => {
            assert(p + c.signature().magic_offset == p);
            lemma_first_bytes(d, p, w);
        },
    }
}

/// All formats are known, each by its name, with its usual extension and
/// the longest file that is taken for one.
pub proof fn lemma_known_formats(c: BuiltinCarver)
    ensures
        builtin_list().contains(c),
        c.signature().name == match c {
            BuiltinCarver::IsoBmff(_) => "mp4"@,
            BuiltinCarver::Riff(_) => "riff"@,
            BuiltinCarver::Matroska(_) => "mkv"@,
            BuiltinCarver::Asf(_) => "asf"@,
            BuiltinCarver::Png(_) => "png"@,
            BuiltinCarver::Gif(_) => "gif"@,
            BuiltinCarver::Bmp(_) => "bmp"@,
            BuiltinCarver::Tiff(_) => "tiff"@,
            BuiltinCarver::Jpeg(_) => "jpeg"@,
            BuiltinCarver::MpegPs(_) => "mpg"@,
            BuiltinCarver::MpegTs(ts) => if ts.timestamps {
                "m2ts"@
            } else {
                "ts"@
            },
            BuiltinCarver::Pdf(_) => "pdf"@,
        },
        c.signature().extension == match c {
            BuiltinCarver::IsoBmff(_) => "mp4"@,
            BuiltinCarver::Riff(_) => "avi"@,
            BuiltinCarver::Matroska(_) => "mkv"@,
            BuiltinCarver::Asf(_) => "wmv"@,
            BuiltinCarver::Png(_) => "png"@,
            BuiltinCarver::Gif(_) => "gif"@,
            BuiltinCarver::Bmp(_) => "bmp"@,
            BuiltinCarver::Tiff(_) => "tif"@,
            BuiltinCarver::Jpeg(_) => "jpg"@,
            BuiltinCarver::MpegPs(_) => "mpg"@,
            BuiltinCarver::MpegTs(ts) => if ts.timestamps {
                "m2ts"@
            } else {
                "ts"@
            },
            BuiltinCarver::Pdf(_) => "pdf"@,
        },
        c.signature().max_len == match c {
            BuiltinCarver::IsoBmff(_) => 68719476736,
            BuiltinCarver::Riff(_) => 68719476736,
            BuiltinCarver::Matroska(_) => 68719476736,
            BuiltinCarver::Asf(_) => 17179869184,
            BuiltinCarver::Png(_) => 268435456,
            BuiltinCarver::Gif(_) => 268435456,
            BuiltinCarver::Bmp(_) => 268435456,
            BuiltinCarver::Tiff(_) => 2147483648,
            BuiltinCarver::Jpeg(_) => 268435456,
            BuiltinCarver::MpegPs(_) => 17179869184,
            BuiltinCarver::MpegTs(_) => 68719476736int,
            BuiltinCarver::Pdf(_) => 268435456,
        },
{
    let all = builtin_list();
    match c {
        BuiltinCarver::IsoBmff(_) => assert(all[0] == c),
        BuiltinCarver::Riff(_) => assert(all[1] == c),
        BuiltinCarver::Matroska(_) => assert(all[2] == c),
        BuiltinCarver::Asf(_) => assert(all[3] == c),
        BuiltinCarver::Png(_) => assert(all[4] == c),
        BuiltinCarver::Gif(_) => assert(all[5] == c),
        BuiltinCarver::Bmp(_) => assert(all[6] == c),
        BuiltinCarver::Tiff(_) => assert(all[7] == c),
        BuiltinCarver::Jpeg(_) => assert(all[8] == c),
        BuiltinCarver::MpegPs(_) => assert(all[9] == c),
        BuiltinCarver::MpegTs(ts) => if ts.timestamps {
            assert(all[11] == c);
        } else {
            assert(all[10] == c);
        },
        BuiltinCarver::Pdf(_) => assert(all[12] == c),
    }
}

/// Formats with weak signatures come last: where a file of a format with a
/// structure of its own is, no transport stream is seen, which one byte
/// announces.
pub proof fn lemma_structure_comes_first(i: int, j: int, ts: bool)
    requires
        0 <= i < builtin_list().len(),
        0 <= j < builtin_list().len(),
        builtin_list()[j] == BuiltinCarver::MpegTs(MpegTs { timestamps: ts }),
        !(builtin_list()[i] is MpegTs),
        !(builtin_list()[i] is Pdf),
    ensures
        i < j,
{
    assert(j == 10 || j == 11);
    assert(i != 10 && i != 11 && i != 12);
}

/// Selected formats keep their order: if one comes before another, it does
/// so among all formats.
pub proof fn lemma_selection_keeps_order(
    cs: Seq<BuiltinCarver>,
    names: Option<Seq<Seq<char>>>,
    i: int,
    j: int,
)
    requires
        0 <= i < j < selected(cs, names).len(),
    ensures
        exists|a: int, b: int|
            0 <= a < b < cs.len() && #[trigger] cs[a] == selected(cs, names)[i] && #[trigger] cs[b]
                == selected(cs, names)[j],
    decreases cs.len(),
{
    let all = selected(cs, names);
    let rest = cs.drop_last();
    let before = selected(rest, names);
    if j < before.len() {
        lemma_selection_keeps_order(rest, names, i, j);
        let (a, b) = choose|a: int, b: int|
            0 <= a < b < rest.len() && #[trigger] rest[a] == before[i] && #[trigger] rest[b]
                == before[j];
        assert(cs[a] == all[i] && cs[b] == all[j]);
    } else {
        lemma_selected_from(rest, names, i);
        let a = choose|a: int| 0 <= a < rest.len() && #[trigger] rest[a] == before[i];
        assert(cs[a] == all[i] && cs[cs.len() - 1] == all[j]);
    }
}

proof fn lemma_selected_from(cs: Seq<BuiltinCarver>, names: Option<Seq<Seq<char>>>, i: int)
    requires
        0 <= i < selected(cs, names).len(),
    ensures
        exists|a: int| 0 <= a < cs.len() && #[trigger] cs[a] == selected(cs, names)[i],
    decreases cs.len(),
{
    let rest = cs.drop_last();
    let before = selected(rest, names);
    if i < before.len() {
        lemma_selected_from(rest, names, i);
        let a = choose|a: int| 0 <= a < rest.len() && #[trigger] rest[a] == before[i];
        assert(cs[a] == selected(cs, names)[i]);
    } else {
        assert(cs[cs.len() - 1] == selected(cs, names)[i]);
    }
}

/// A format was asked for: by its name, or because none was named.
pub open spec fn is_asked_for(opts: CarveOptions, c: BuiltinCarver) -> bool {
    opts.formats matches Some(names) ==> exists|i: int|
        0 <= i < names@.len() && (#[trigger] names@[i])@ == c.signature().name
}

/// The distance of the places that are looked at: as asked for, and never
/// nothing.
pub open spec fn is_step(opts: CarveOptions, step: int) -> bool {
    step > 0 && (step == opts.align || (opts.align == 0 && step == 1))
}

proof fn lemma_chosen(opts: CarveOptions, c: BuiltinCarver)
    ensures
        selected(builtin_list(), asked(opts.formats)).contains(c) <==> is_asked_for(opts, c),
{
    let all = builtin_list();
    lemma_known_formats(c);
    match opts.formats {
        Some(names) => {
            let list = Seq::new(names@.len(), |i: int| names@[i]@);
            crate::carve::laws::lemma_selected(all, list, c);
            assert(asked(opts.formats) == Some(list));
            if is_asked_for(opts, c) {
                let i = choose|i: int|
                    0 <= i < names@.len() && (#[trigger] names@[i])@ == c.signature().name;
                assert(list[i] == c.signature().name);
            }
            if list.contains(c.signature().name) {
                let i = choose|i: int| 0 <= i < list.len() && list[i] == c.signature().name;
                assert(names@[i]@ == c.signature().name);
            }
        },
        None => {
            crate::carve::laws::lemma_selected(all, Seq::empty(), c);
        },
    }
}

/// What is said of the files of a scan is said of the values that it gives.
pub proof fn lemma_files_are_given(v: Seq<CarvedFile>, i: int)
    requires
        0 <= i < v.len(),
    ensures
        file_views(v).len() == v.len(),
        file_views(v)[i].offset == v[i].offset,
        file_views(v)[i].len == v[i].len,
        file_views(v)[i].format == v[i].format@,
        file_views(v)[i].name == v[i].name@,
        file_views(v)[i].damaged == v[i].damaged,
        file_views(v)[i].truncated == v[i].truncated,
{
}

/// A map tells a scan the status of every byte.
pub proof fn lemma_map_is_used(m: RescueMap)
    ensures
        map_view(Some(&m)) == Some(m@),
        map_view(None) is None,
{
}

/// No format is selected if and only if none that is known was asked for.
pub proof fn lemma_nothing_was_asked_for(opts: CarveOptions)
    ensures
        selected(builtin_list(), asked(opts.formats)).len() == 0 <==> forall|c: BuiltinCarver|
            !#[trigger] is_asked_for(opts, c),
{
    let cs = selected(builtin_list(), asked(opts.formats));
    if cs.len() == 0 {
        assert forall|c: BuiltinCarver| !#[trigger] is_asked_for(opts, c) by {
            lemma_chosen(opts, c);
        }
    } else {
        lemma_chosen(opts, cs[0]);
        assert(cs.contains(cs[0]));
        assert(is_asked_for(opts, cs[0]));
    }
}

/// A scan finds files of the formats that were asked for only, and at the
/// places that were asked for only.
pub proof fn lemma_only_what_was_asked_for(
    d: Seq<u8>,
    map: Option<Seq<SectorStatus>>,
    opts: CarveOptions,
    step: int,
    i: int,
)
    requires
        is_step(opts, step),
        0 <= i < found_in(d, map, opts).len(),
    ensures
        found_in(d, map, opts)[i].offset % step == 0,
        exists|c: BuiltinCarver| #[trigger]
            is_asked_for(opts, c) && found_in(d, map, opts)[i].format == c.signature().name && hit(
                c,
                d,
                found_in(d, map, opts)[i].offset,
            ) is Some,
{
    let cs = selected(builtin_list(), asked(opts.formats));
    lemma_files_are_told(cs, d, map, step, i);
    let f = found_in(d, map, opts)[i];
    let k = choose|k: int| #[trigger] is_told(f, cs, d, map, k);
    assert(cs.contains(cs[k]));
    lemma_chosen(opts, cs[k]);
    assert(is_asked_for(opts, cs[k]));
}

/// A scan misses nothing that was asked for: a file of such a format, at
/// such a place that was rescued, is found, unless another file starts
/// there or reaches over that place.
pub proof fn lemma_all_that_was_asked_for(
    d: Seq<u8>,
    map: Option<Seq<SectorStatus>>,
    opts: CarveOptions,
    step: int,
    c: BuiltinCarver,
    off: int,
)
    requires
        is_step(opts, step),
        0 <= off < d.len(),
        off % step == 0,
        map matches Some(m) ==> off < m.len() && m[off] == SectorStatus::Rescued,
        is_asked_for(opts, c),
        hit(c, d, off) is Some,
    ensures
        exists|i: int|
            0 <= i < found_in(d, map, opts).len() && ((#[trigger] found_in(d, map, opts)[i]).offset
                == off || found_in(d, map, opts)[i].offset < off < found_in(d, map, opts)[i].offset
                + found_in(d, map, opts)[i].len),
{
    let cs = selected(builtin_list(), asked(opts.formats));
    lemma_chosen(opts, c);
    let k = choose|k: int| 0 <= k < cs.len() && cs[k] == c;
    lemma_files_are_found(cs, d, map, step, off, k);
    let files = files_from(cs, d, map, step, 0);
    assert(found_in(d, map, opts) == files);
    let i = choose|i: int|
        0 <= i < files.len() && ((#[trigger] files[i]).offset == off || files[i].offset < off
            < files[i].offset + files[i].len);
    assert(found_in(d, map, opts)[i] == files[i]);
}

} // verus!
