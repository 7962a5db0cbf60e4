//! Human-readable and JSON reports of the files that were found.

use super::{file_views, CarvedFile, Found};
use crate::text::number::{
    digits_of, hex_padded, pad_left, pad_right, padded_left, padded_right, write_digits, write_hex,
};
use crate::text::{chars_of, push_chars, push_text};
use vstd::prelude::*;

verus! {

/// The flags of a file, in words.
pub open spec fn flags_of(f: Found) -> Seq<char> {
    if f.damaged && f.truncated {
        "damaged truncated"@
    } else if f.damaged {
        "damaged"@
    } else if f.truncated {
        "truncated"@
    } else {
        ""@
    }
}

/// The line of a file in the text report: offset, size, format, flags and
/// name, in columns.
pub open spec fn text_line(f: Found) -> Seq<char> {
    "0x"@ + hex_padded(f.offset, 9) + " "@ + padded_left(digits_of(f.len, 10), ' ', 11) + " "@
        + padded_right(f.format, 7) + " "@ + padded_right(flags_of(f), 9) + " "@ + f.name + "\n"@
}

/// The text report of the first `n` files.
pub open spec fn text_lines(files: Seq<Found>, n: int) -> Seq<char>
    decreases n,
{
    if n <= 0 {
        "offset      size        format  flags     file\n"@
    } else {
        text_lines(files, n - 1) + text_line(files[n - 1])
    }
}

/// `s` with a backslash before each backslash and double quote.
pub open spec fn escaped(s: Seq<char>) -> Seq<char>
    decreases s.len(),
{
    if s.len() == 0 {
        s
    } else if s.last() == '\\' || s.last() == '"' {
        escaped(s.drop_last()).push('\\').push(s.last())
    } else {
        escaped(s.drop_last()).push(s.last())
    }
}

pub open spec fn bool_text(b: bool) -> Seq<char> {
    if b {
        "true"@
    } else {
        "false"@
    }
}

/// The object of a file in the JSON report.
pub open spec fn json_object(f: Found) -> Seq<char> {
    "  {\"offset\": "@ + digits_of(f.offset, 10) + ", \"size\": "@ + digits_of(f.len, 10)
        + ", \"format\": \""@ + f.format + "\", \"damaged\": "@ + bool_text(f.damaged)
        + ", \"truncated\": "@ + bool_text(f.truncated) + ", \"file\": \""@ + escaped(f.name)
        + "\"}"@
}

/// The objects of the first `n` files, with commas between all of them.
pub open spec fn json_objects(files: Seq<Found>, n: int) -> Seq<char>
    decreases n,
{
    if n <= 0 {
        "[\n"@
    } else {
        json_objects(files, n - 1) + json_object(files[n - 1]) + if n == files.len() {
            "\n"@
        } else {
            ",\n"@
        }
    }
}

fn push_bool(s: &mut String, b: bool)
    ensures
        final(s)@ == old(s)@ + bool_text(b),
{
    if b {
        push_text(s, "true");
    } else {
        push_text(s, "false");
    }
}

fn push_text_line(s: &mut String, f: &CarvedFile)
    ensures
        final(s)@ == old(s)@ + text_line(f@),
{
    let size: Vec<char> = write_digits(f.len, 10);
    let format: Vec<char> = chars_of(f.format);
    let flags: Vec<char> = chars_of(
        if f.damaged && f.truncated {
            "damaged truncated"
        } else if f.damaged {
            "damaged"
        } else if f.truncated {
            "truncated"
        } else {
            ""
        },
    );
    let mut line: String = String::new();
    push_text(&mut line, "0x");
    assert(line@ =~= "0x"@);
    push_chars(&mut line, &write_hex(f.offset, 9));
    push_text(&mut line, " ");
    push_chars(&mut line, &pad_left(&size, ' ', 11));
    push_text(&mut line, " ");
    push_chars(&mut line, &pad_right(&format, 7));
    push_text(&mut line, " ");
    push_chars(&mut line, &pad_right(&flags, 9));
    push_text(&mut line, " ");
    push_text(&mut line, f.name.as_str());
    push_text(&mut line, "\n");
    push_text(s, line.as_str());
}

/// The human-readable report.
pub fn text_report(files: &[CarvedFile]) -> (s: String)
    ensures
        s@ == text_lines(file_views(files@), files@.len() as int),
{
    let ghost all = file_views(files@);
    let mut s: String = String::new();
    push_text(&mut s, "offset      size        format  flags     file\n");
    assert(s@ =~= text_lines(all, 0));
    let n: usize = files.len();
    let mut i: usize = 0;
    while i < n
        invariant
            i <= n,
            n == files@.len(),
            all == file_views(files@),
            s@ == text_lines(all, i as int),
        decreases n - i,
    {
        push_text_line(&mut s, &files[i]);
        i = i + 1;
    }
    s
}

/// `s` with a backslash before each backslash and double quote.
fn escape(s: &str) -> (r: Vec<char>)
    ensures
        r@ == escaped(s@),
{
    let v: Vec<char> = chars_of(s);
    let n: usize = v.len();
    let mut r: Vec<char> = Vec::new();
    let mut i: usize = 0;
    assert(v@.take(0) =~= Seq::empty());
    while i < n
        invariant
            i <= n,
            n == v@.len(),
            r@ == escaped(v@.take(i as int)),
        decreases n - i,
    {
        let c: char = v[i];
        proof {
            assert(v@.take(i + 1).drop_last() =~= v@.take(i as int));
        }
        if c == '\\' || c == '"' {
            r.push('\\');
        }
        r.push(c);
        i = i + 1;
    }
    assert(v@.take(n as int) =~= v@);
    r
}

fn push_json_object(s: &mut String, f: &CarvedFile)
    ensures
        final(s)@ == old(s)@ + json_object(f@),
{
    let mut line: String = String::new();
    push_text(&mut line, "  {\"offset\": ");
    assert(line@ =~= "  {\"offset\": "@);
    push_chars(&mut line, &write_digits(f.offset, 10));
    push_text(&mut line, ", \"size\": ");
    push_chars(&mut line, &write_digits(f.len, 10));
    push_text(&mut line, ", \"format\": \"");
    push_text(&mut line, f.format);
    push_text(&mut line, "\", \"damaged\": ");
    push_bool(&mut line, f.damaged);
    push_text(&mut line, ", \"truncated\": ");
    push_bool(&mut line, f.truncated);
    push_text(&mut line, ", \"file\": \"");
    push_chars(&mut line, &escape(f.name.as_str()));
    push_text(&mut line, "\"}");
    push_text(s, line.as_str());
}

/// The JSON report.
pub fn json_report(files: &[CarvedFile]) -> (s: String)
    ensures
        s@ == json_objects(file_views(files@), files@.len() as int) + "]\n"@,
{
    let ghost all = file_views(files@);
    let mut s: String = String::new();
    push_text(&mut s, "[\n");
    assert(s@ =~= json_objects(all, 0));
    let n: usize = files.len();
    let mut i: usize = 0;
    while i < n
        invariant
            i <= n,
            n == files@.len(),
            all == file_views(files@),
            s@ == json_objects(all, i as int),
        decreases n - i,
    {
        push_json_object(&mut s, &files[i]);
        i = i + 1;
        if i == n {
            push_text(&mut s, "\n");
        } else {
            push_text(&mut s, ",\n");
        }
    }
    push_text(&mut s, "]\n");
    s
}

/// How many of the first `n` files are damaged.
pub open spec fn damaged_among(files: Seq<Found>, n: int) -> int
    decreases n,
{
    if n <= 0 {
        0
    } else {
        damaged_among(files, n - 1) + if files[n - 1].damaged {
            1int
        } else {
            0
        }
    }
}

/// How many files are damaged.
pub fn count_damaged(files: &[CarvedFile]) -> (r: usize)
    ensures
        r == damaged_among(file_views(files@), files@.len() as int),
{
    let ghost all = file_views(files@);
    let n: usize = files.len();
    let mut r: usize = 0;
    let mut i: usize = 0;
    while i < n
        invariant
            i <= n,
            n == files@.len(),
            all == file_views(files@),
            r <= i,
            r == damaged_among(all, i as int),
        decreases n - i,
    {
        if files[i].damaged {
            r = r + 1;
        }
        i = i + 1;
    }
    r
}

/// How many of the first `n` files have a format.
pub open spec fn of_format(files: Seq<Found>, format: Seq<char>, n: int) -> int
    decreases n,
{
    if n <= 0 {
        0
    } else {
        of_format(files, format, n - 1) + if files[n - 1].format == format {
            1int
        } else {
            0
        }
    }
}

/// `a` comes before `b` in a dictionary.
pub open spec fn before(a: Seq<char>, b: Seq<char>) -> bool
    decreases a.len(),
{
    if b.len() == 0 {
        false
    } else if a.len() == 0 {
        true
    } else if a[0] != b[0] {
        a[0] < b[0]
    } else {
        before(a.drop_first(), b.drop_first())
    }
}

/// The dictionary order is transitive, and total.
proof fn lemma_before(a: Seq<char>, b: Seq<char>, c: Seq<char>)
    ensures
        before(a, b) && before(b, c) ==> before(a, c),
        before(a, b) ==> a != b,
        a != b ==> before(a, b) || before(b, a),
    decreases a.len(),
{
    if a.len() > 0 && b.len() > 0 {
        if c.len() > 0 {
            lemma_before(a.drop_first(), b.drop_first(), c.drop_first());
        } else {
            lemma_before(a.drop_first(), b.drop_first(), c);
        }
        if a[0] == b[0] && a.drop_first() == b.drop_first() {
            assert(a =~= seq![a[0]] + a.drop_first());
            assert(b =~= seq![b[0]] + b.drop_first());
        }
    } else if a.len() == 0 && b.len() == 0 {
        assert(a =~= b);
    }
}

/// Compare two strings in dictionary order; `None` when they are equal.
fn comes_before(a: &str, b: &str) -> (r: Option<bool>)
    ensures
        r is None <==> a@ == b@,
        r matches Some(x) ==> x == before(a@, b@),
{
    let v: Vec<char> = chars_of(a);
    let w: Vec<char> = chars_of(b);
    let mut i: usize = 0;
    assert(v@.skip(0) =~= v@);
    assert(w@.skip(0) =~= w@);
    while i < v.len() && i < w.len()
        invariant
            v@ == a@,
            w@ == b@,
            i <= v@.len(),
            i <= w@.len(),
            v@.take(i as int) == w@.take(i as int),
            before(a@, b@) == before(v@.skip(i as int), w@.skip(i as int)),
        decreases v@.len() - i,
    {
        if v[i] != w[i] {
            assert(a@[i as int] != b@[i as int]);
            return Some(v[i] < w[i]);
        }
        proof {
            assert(v@.skip(i as int).drop_first() =~= v@.skip(i + 1));
            assert(w@.skip(i as int).drop_first() =~= w@.skip(i + 1));
            assert(v@.take(i + 1) =~= v@.take(i as int).push(v@[i as int]));
            assert(w@.take(i + 1) =~= w@.take(i as int).push(w@[i as int]));
        }
        i = i + 1;
    }
    if v.len() == w.len() {
        assert(v@ =~= v@.take(i as int));
        assert(w@ =~= w@.take(i as int));
        None
    } else {
        Some(v.len() < w.len())
    }
}

/// The counts `c` tell, in dictionary order, of each format among the first
/// `n` files how many there are.
pub open spec fn counts_formats(c: Seq<(&'static str, usize)>, files: Seq<Found>, n: int) -> bool {
    &&& forall|i: int, j: int|
        0 <= i < j < c.len() ==> before((#[trigger] c[i]).0@, (#[trigger] c[j]).0@)
    &&& forall|i: int|
        0 <= i < c.len() ==> (#[trigger] c[i]).1 == of_format(files, c[i].0@, n) && c[i].1 > 0
    &&& forall|k: int| 0 <= k < n ==> is_counted(c, (#[trigger] files[k]).format)
}

/// A format is among the counts.
pub open spec fn is_counted(c: Seq<(&'static str, usize)>, format: Seq<char>) -> bool {
    exists|i: int| 0 <= i < c.len() && (#[trigger] c[i]).0@ == format
}

/// How many files there are of each format, in the order of their names.
pub fn count_formats(files: &[CarvedFile]) -> (c: Vec<(&'static str, usize)>)
    ensures
        counts_formats(c@, file_views(files@), files@.len() as int),
{
    let ghost all = file_views(files@);
    let mut c: Vec<(&'static str, usize)> = Vec::new();
    let n: usize = files.len();
    let mut k: usize = 0;
    while k < n
        invariant
            k <= n,
            n == files@.len(),
            all == file_views(files@),
            counts_formats(c@, all, k as int),
            forall|i: int| 0 <= i < c@.len() ==> (#[trigger] c@[i]).1 <= k,
        decreases n - k,
    {
        add_format(&mut c, files[k].format, Ghost(all), Ghost(k as int));
        k = k + 1;
    }
    c
}

/// Count one more file.
fn add_format(
    c: &mut Vec<(&'static str, usize)>,
    format: &'static str,
    Ghost(files): Ghost<Seq<Found>>,
    Ghost(k): Ghost<int>,
)
    requires
        0 <= k < files.len(),
        k < usize::MAX,
        files[k].format == format@,
        counts_formats(old(c)@, files, k),
        forall|i: int| 0 <= i < old(c)@.len() ==> (#[trigger] old(c)@[i]).1 <= k,
    ensures
        counts_formats(final(c)@, files, k + 1),
        forall|i: int| 0 <= i < final(c)@.len() ==> (#[trigger] final(c)@[i]).1 <= k + 1,
{
    let ghost c0 = c@;
    let n: usize = c.len();
    let mut i: usize = 0;
    while i < n
        invariant
            i <= n,
            n == c@.len(),
            c@ == c0,
            counts_formats(c0, files, k),
            0 <= k < files.len(),
            k < usize::MAX,
            files[k].format == format@,
            forall|j: int| 0 <= j < c0.len() ==> (#[trigger] c0[j]).1 <= k,
            forall|j: int| 0 <= j < i ==> before((#[trigger] c0[j]).0@, format@),
        ensures
            c@ == c0,
            i <= c0.len(),
            forall|j: int| 0 <= j < i ==> before((#[trigger] c0[j]).0@, format@),
            forall|j: int| i <= j < c0.len() ==> before(format@, (#[trigger] c0[j]).0@),
        decreases n - i,
    {
        let name: &'static str = c[i].0;
        let count: usize = c[i].1;
        match comes_before(name, format) {
            None => {
                c.set(i, (name, count + 1));
                proof {
                    lemma_counted(c0, c@, files, k, i as int);
                }
                return;
            },
            Some(true) => {},
            Some(false) => {
                proof {
                    lemma_before(name@, format@, name@);
                    assert forall|j: int| i <= j < c0.len() implies before(
                        format@,
                        (#[trigger] c0[j]).0@,
                    ) by {
                        if j > i {
                            lemma_before(format@, name@, c0[j].0@);
                        }
                    }
                }
                break;
            },
        }
        i = i + 1;
    }
    c.insert(i, (format, 1));
    proof {
        lemma_inserted(c0, c@, files, k, i as int, format);
    }
}

/// One more file of a format that is listed.
proof fn lemma_counted(
    c0: Seq<(&'static str, usize)>,
    c1: Seq<(&'static str, usize)>,
    files: Seq<Found>,
    k: int,
    i: int,
)
    requires
        0 <= k < files.len(),
        counts_formats(c0, files, k),
        0 <= i < c0.len(),
        c0[i].0@ == files[k].format,
        c0[i].1 < usize::MAX,
        c1 == c0.update(i, (c0[i].0, (c0[i].1 + 1) as usize)),
    ensures
        counts_formats(c1, files, k + 1),
{
    assert forall|j: int| 0 <= j < c1.len() implies (#[trigger] c1[j]).1 == of_format(
        files,
        c1[j].0@,
        k + 1,
    ) && c1[j].1 > 0 by {
        assert(c0[j].1 == of_format(files, c0[j].0@, k));
        if j < i {
            assert(before(c0[j].0@, c0[i].0@));
            lemma_before(c0[j].0@, c0[i].0@, c0[i].0@);
        } else if j > i {
            assert(before(c0[i].0@, c0[j].0@));
            lemma_before(c0[i].0@, c0[j].0@, c0[i].0@);
        }
    }
    assert forall|a: int, b: int| 0 <= a < b < c1.len() implies before(
        (#[trigger] c1[a]).0@,
        (#[trigger] c1[b]).0@,
    ) by {
        assert(before(c0[a].0@, c0[b].0@));
    }
    assert forall|f: int| 0 <= f < k + 1 implies is_counted(c1, (#[trigger] files[f]).format) by {
        if f < k {
            assert(is_counted(c0, files[f].format));
            let j = choose|j: int|
                0 <= j < c0.len() && (#[trigger] c0[j]).0@ == files[f].format;
            assert(c1[j].0@ == files[f].format);
        } else {
            assert(c1[i].0@ == files[f].format);
        }
    }
}

/// The first file of a format.
proof fn lemma_inserted(
    c0: Seq<(&'static str, usize)>,
    c1: Seq<(&'static str, usize)>,
    files: Seq<Found>,
    k: int,
    i: int,
    format: &'static str,
)
    requires
        0 <= k < files.len(),
        counts_formats(c0, files, k),
        0 <= i <= c0.len(),
        format@ == files[k].format,
        c1 == c0.insert(i, (format, 1usize)),
        forall|j: int| 0 <= j < i ==> before((#[trigger] c0[j]).0@, format@),
        forall|j: int| i <= j < c0.len() ==> before(format@, (#[trigger] c0[j]).0@),
        forall|j: int| 0 <= j < c0.len() ==> (#[trigger] c0[j]).1 <= k,
    ensures
        counts_formats(c1, files, k + 1),
        forall|j: int| 0 <= j < c1.len() ==> (#[trigger] c1[j]).1 <= k + 1,
{
    assert forall|j: int| 0 <= j < c1.len() implies (#[trigger] c1[j]).1 == of_format(
        files,
        c1[j].0@,
        k + 1,
    ) && c1[j].1 > 0 && c1[j].1 <= k + 1 by {
        if j < i {
            assert(c1[j] == c0[j]);
            assert(before(c0[j].0@, format@));
            lemma_before(c0[j].0@, format@, format@);
        } else if j > i {
            assert(c1[j] == c0[j - 1]);
            assert(before(format@, c0[j - 1].0@));
            lemma_before(format@, c0[j - 1].0@, format@);
        } else {
            lemma_not_listed(c0, files, k, format@);
        }
    }
    assert forall|a: int, b: int| 0 <= a < b < c1.len() implies before(
        (#[trigger] c1[a]).0@,
        (#[trigger] c1[b]).0@,
    ) by {
        let x = if a < i {
            c0[a].0@
        } else if a == i {
            format@
        } else {
            c0[a - 1].0@
        };
        let y = if b < i {
            c0[b].0@
        } else if b == i {
            format@
        } else {
            c0[b - 1].0@
        };
        assert(c1[a].0@ == x && c1[b].0@ == y);
        if a < i && b > i {
            assert(c0[b - 1].0@ == y);
        }
    }
    assert forall|f: int| 0 <= f < k + 1 implies is_counted(c1, (#[trigger] files[f]).format) by {
        if f < k {
            assert(is_counted(c0, files[f].format));
            let j = choose|j: int|
                0 <= j < c0.len() && (#[trigger] c0[j]).0@ == files[f].format;
            if j < i {
                assert(c1[j].0@ == files[f].format);
            } else {
                assert(c1[j + 1].0@ == files[f].format);
            }
        } else {
            assert(c1[i].0@ == files[f].format);
        }
    }
}

/// A format that is not listed has no file yet.
proof fn lemma_not_listed(
    c: Seq<(&'static str, usize)>,
    files: Seq<Found>,
    k: int,
    format: Seq<char>,
)
    requires
        0 <= k <= files.len(),
        forall|f: int| 0 <= f < k ==> is_counted(c, (#[trigger] files[f]).format),
        forall|i: int|
            0 <= i < c.len() ==> before((#[trigger] c[i]).0@, format) || before(format, c[i].0@),
    ensures
        of_format(files, format, k) == 0,
    decreases k,
{
    if k > 0 {
        lemma_not_listed(c, files, k - 1, format);
        assert(is_counted(c, files[k - 1].format));
        let i = choose|i: int|
            0 <= i < c.len() && (#[trigger] c[i]).0@ == files[k - 1].format;
        lemma_before(c[i].0@, format, format);
        lemma_before(format, c[i].0@, format);
    }
}

} // verus!
