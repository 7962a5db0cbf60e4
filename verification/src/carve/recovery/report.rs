//! What the reports tell of the files.

use crate::carve::report::{
    before, damaged_among, escaped, flags_of, json_objects, of_format, text_line, text_lines,
};
use crate::carve::Found;
use vstd::prelude::*;

verus! {

/// A string of JSON, read: a backslash stands for the character behind it.
pub open spec fn unescaped(s: Seq<char>) -> Seq<char>
    decreases s.len(),
{
    if s.len() == 0 {
        s
    } else if s[0] == '\\' && s.len() > 1 {
        seq![s[1]] + unescaped(s.skip(2))
    } else {
        seq![s[0]] + unescaped(s.skip(1))
    }
}

/// The string ends nowhere before its end: each double quote has a backslash
/// of its own before it, and so has each backslash.
pub open spec fn is_closed(s: Seq<char>) -> bool
    decreases s.len(),
{
    if s.len() == 0 {
        true
    } else if s[0] == '\\' {
        s.len() > 1 && is_closed(s.skip(2))
    } else {
        s[0] != '"' && is_closed(s.skip(1))
    }
}

proof fn lemma_escape_first(c: char, s: Seq<char>)
    ensures
        escaped(seq![c] + s) == (if c == '\\' || c == '"' {
            seq!['\\', c]
        } else {
            seq![c]
        }) + escaped(s),
    decreases s.len(),
{
    let t = seq![c] + s;
    let head = if c == '\\' || c == '"' {
        seq!['\\', c]
    } else {
        seq![c]
    };
    if s.len() == 0 {
        assert(t.drop_last() =~= Seq::empty());
        assert(escaped(t.drop_last()) =~= Seq::empty());
        assert(escaped(s) =~= Seq::empty());
        assert(escaped(t) =~= head + escaped(s));
    } else {
        assert(t.drop_last() =~= seq![c] + s.drop_last());
        lemma_escape_first(c, s.drop_last());
        assert(escaped(t) =~= head + escaped(s));
    }
}

/// Names come back from a report as they are, whatever characters they have.
pub proof fn lemma_names_read_back(s: Seq<char>)
    ensures
        unescaped(escaped(s)) == s,
        is_closed(escaped(s)),
    decreases s.len(),
{
    if s.len() == 0 {
        assert(escaped(s) =~= Seq::empty());
    } else {
        let c = s[0];
        let rest = s.skip(1);
        assert(seq![c] + rest =~= s);
        lemma_escape_first(c, rest);
        lemma_names_read_back(rest);
        let e = escaped(s);
        if c == '\\' || c == '"' {
            assert(e.skip(2) =~= escaped(rest));
            assert(e[0] == '\\' && e[1] == c);
        } else {
            assert(e.skip(1) =~= escaped(rest));
            assert(e[0] == c);
        }
        assert(unescaped(e) =~= s);
    }
}

/// The number of damaged files is that of the files that are damaged.
pub proof fn lemma_damaged_files_are_counted(files: Seq<Found>)
    ensures
        damaged_among(files, files.len() as int) == files.filter(|f: Found| f.damaged).len(),
    decreases files.len(),
{
    reveal(Seq::filter);
    if files.len() > 0 {
        lemma_damaged_files_are_counted(files.drop_last());
        lemma_damaged_part(files, files.drop_last(), files.len() - 1);
    }
}

proof fn lemma_damaged_part(a: Seq<Found>, b: Seq<Found>, n: int)
    requires
        n <= a.len(),
        n <= b.len(),
        forall|i: int| 0 <= i < n ==> a[i] == #[trigger] b[i],
    ensures
        damaged_among(a, n) == damaged_among(b, n),
    decreases n,
{
    if n > 0 {
        lemma_damaged_part(a, b, n - 1);
        assert(a[n - 1] == b[n - 1]);
    }
}

/// The number of files of a format is that of the files that have it.
pub proof fn lemma_files_of_a_format_are_counted(files: Seq<Found>, format: Seq<char>)
    ensures
        of_format(files, format, files.len() as int) == files.filter(
            |f: Found| f.format == format,
        ).len(),
    decreases files.len(),
{
    reveal(Seq::filter);
    if files.len() > 0 {
        lemma_files_of_a_format_are_counted(files.drop_last(), format);
        lemma_format_part(files, files.drop_last(), format, files.len() - 1);
    }
}

proof fn lemma_format_part(a: Seq<Found>, b: Seq<Found>, format: Seq<char>, n: int)
    requires
        n <= a.len(),
        n <= b.len(),
        forall|i: int| 0 <= i < n ==> a[i] == #[trigger] b[i],
    ensures
        of_format(a, format, n) == of_format(b, format, n),
    decreases n,
{
    if n > 0 {
        lemma_format_part(a, b, format, n - 1);
        assert(a[n - 1] == b[n - 1]);
    }
}

/// The order of names is that of a dictionary: the first character that
/// differs decides, and a name comes before those that go on from it.
pub proof fn lemma_dictionary_order(a: Seq<char>, b: Seq<char>, k: int)
    requires
        0 <= k <= a.len(),
        k < b.len(),
        forall|i: int| 0 <= i < k ==> #[trigger] a[i] == b[i],
        k == a.len() || a[k] < b[k],
    ensures
        before(a, b),
        !before(b, a),
    decreases k,
{
    if k > 0 {
        let c = a.drop_first();
        let d = b.drop_first();
        assert(a[0] == b[0]);
        assert forall|i: int| 0 <= i < k - 1 implies #[trigger] c[i] == d[i] by {
            assert(a[i + 1] == b[i + 1]);
        }
        lemma_dictionary_order(c, d, k - 1);
    }
}

/// Each file has its line in the text report, in order, behind what was
/// there before.
pub proof fn lemma_each_file_has_a_line(files: Seq<Found>, n: int)
    requires
        0 <= n < files.len(),
    ensures
        text_lines(files, n + 1) == text_lines(files, n) + text_line(files[n]),
        text_line(files[n]).last() == '\n',
        json_objects(files, n + 1).len() > json_objects(files, n).len(),
{
    reveal_strlit("\n");
    reveal_strlit(",\n");
    assert(text_line(files[n]).last() == '\n');
}

/// Both flags are told where both hold.
pub proof fn lemma_flags_are_told(f: Found, g: Found)
    requires
        f.damaged != g.damaged || f.truncated != g.truncated,
    ensures
        flags_of(f) != flags_of(g),
{
    reveal_strlit("damaged truncated");
    reveal_strlit("damaged");
    reveal_strlit("truncated");
    reveal_strlit("");
    assert(flags_of(f).len() != flags_of(g).len());
}

} // verus!
