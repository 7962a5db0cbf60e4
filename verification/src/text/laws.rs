//! What cutting, padding and joining text does.

use super::number::{digits_of, padded_left, padded_right};
use super::{
    first_place, is_space, lemma_first_place, lemma_one_piece, lemma_split_append, split_first,
    split_on, trimmed, trimmed_end, trimmed_start,
};
use vstd::prelude::*;

verus! {

/// A blank, a tab, a line end, or another ASCII character that only makes
/// space.
pub open spec fn makes_space(c: char) -> bool {
    c == ' ' || c == '\t' || c == '\n' || c == '\r' || c as int == 11 || c as int == 12
}

/// Only characters that make space.
pub open spec fn only_space(s: Seq<char>) -> bool {
    forall|i: int| 0 <= i < s.len() ==> makes_space(#[trigger] s[i])
}

/// A printable ASCII character other than the blank.
pub open spec fn is_printed(c: char) -> bool {
    '!' <= c <= '~'
}

/// What makes space is what Unicode calls white space: the ASCII characters
/// for that, the next line, the spaces of all widths, and the separators of
/// lines and paragraphs.
pub proof fn lemma_white_space(c: char)
    ensures
        makes_space(c) ==> is_space(c),
        is_printed(c) ==> !is_space(c),
        c as int >= 127 ==> (is_space(c) <==> c as int == 133 || c as int == 160 || c as int == 5760
            || (8192 <= c as int && c as int <= 8202) || c as int == 8232 || c as int == 8233
            || c as int == 8239 || c as int == 8287 || c as int == 12288),
{
}

/// Space around a text is cut off, and nothing else.
pub proof fn lemma_space_is_trimmed(before: Seq<char>, s: Seq<char>, behind: Seq<char>)
    requires
        only_space(before),
        only_space(behind),
        s.len() > 0 ==> is_printed(s[0]) && is_printed(s.last()),
    ensures
        trimmed(before + s + behind) == s,
{
    lemma_start(before, s + behind);
    assert(before + s + behind =~= before + (s + behind));
    if s.len() > 0 {
        assert((s + behind)[0] == s[0]);
        lemma_end(s, behind);
    } else {
        assert(s + behind =~= behind);
        lemma_start(behind, Seq::empty());
        assert(behind + Seq::<char>::empty() =~= behind);
        assert(trimmed_start(Seq::<char>::empty()) =~= Seq::empty());
        assert(trimmed_end(Seq::<char>::empty()) =~= Seq::empty());
        assert(s =~= Seq::empty());
    }
}

proof fn lemma_start(before: Seq<char>, s: Seq<char>)
    requires
        only_space(before),
    ensures
        trimmed_start(before + s) == trimmed_start(s),
    decreases before.len(),
{
    if before.len() > 0 {
        let t = before + s;
        let rest = before.drop_first();
        assert(makes_space(before[0]));
        assert(t.drop_first() =~= rest + s);
        assert forall|i: int| 0 <= i < rest.len() implies makes_space(#[trigger] rest[i]) by {
            assert(rest[i] == before[i + 1]);
        }
        lemma_start(rest, s);
    } else {
        assert(before + s =~= s);
    }
}

proof fn lemma_end(s: Seq<char>, behind: Seq<char>)
    requires
        only_space(behind),
        s.len() > 0,
        is_printed(s.last()),
    ensures
        trimmed_end(s + behind) == s,
    decreases behind.len(),
{
    if behind.len() > 0 {
        let t = s + behind;
        let rest = behind.drop_last();
        assert(makes_space(behind[behind.len() - 1]));
        assert(t.drop_last() =~= s + rest);
        assert forall|i: int| 0 <= i < rest.len() implies makes_space(#[trigger] rest[i]) by {
            assert(rest[i] == behind[i]);
        }
        lemma_end(s, rest);
    } else {
        assert(s + behind =~= s);
    }
}

/// A text is cut at the first separator.
pub proof fn lemma_cut_at_first(a: Seq<char>, c: char, b: Seq<char>)
    requires
        forall|i: int| 0 <= i < a.len() ==> #[trigger] a[i] != c,
    ensures
        split_first(a + seq![c] + b, c) == Some((a, b)),
{
    let s = a + seq![c] + b;
    lemma_first_place(s, c);
    assert(s[a.len() as int] == c);
    assert forall|i: int| 0 <= i < a.len() implies #[trigger] s[i] != c by {
        assert(s[i] == a[i]);
    }
    assert(first_place(s, c) == Some(a.len() as int));
    assert(s.take(a.len() as int) =~= a);
    assert(s.skip(a.len() as int + 1) =~= b);
}

/// A text without the separator is not cut.
pub proof fn lemma_not_cut(a: Seq<char>, c: char)
    requires
        forall|i: int| 0 <= i < a.len() ==> #[trigger] a[i] != c,
    ensures
        split_first(a, c) is None,
{
    lemma_first_place(a, c);
}

/// Pieces with a separator between each two.
pub open spec fn joined(pieces: Seq<Seq<char>>, sep: char) -> Seq<char>
    decreases pieces.len(),
{
    if pieces.len() == 0 {
        Seq::empty()
    } else if pieces.len() == 1 {
        pieces[0]
    } else {
        joined(pieces.drop_last(), sep) + seq![sep] + pieces.last()
    }
}

/// Splitting a joined text gives the pieces.
pub proof fn lemma_split_joined(pieces: Seq<Seq<char>>, sep: char)
    requires
        pieces.len() > 0,
        forall|k: int, i: int|
            0 <= k < pieces.len() && 0 <= i < pieces[k].len() ==> #[trigger] pieces[k][i] != sep,
    ensures
        split_on(joined(pieces, sep), sep) == pieces,
    decreases pieces.len(),
{
    let n = pieces.len() - 1;
    let last = pieces[n];
    assert forall|i: int| 0 <= i < last.len() implies #[trigger] last[i] != sep by {
        assert(pieces[n][i] != sep);
    }
    lemma_one_piece(last, sep);
    if n == 0 {
        assert(seq![pieces[0]] =~= pieces);
    } else {
        let before = pieces.drop_last();
        assert forall|k: int, i: int|
            0 <= k < before.len() && 0 <= i < before[k].len() implies #[trigger] before[k][i]
            != sep by {
            assert(before[k] == pieces[k]);
            assert(pieces[k][i] != sep);
        }
        lemma_split_joined(before, sep);
        let s = joined(before, sep);
        let t = s + seq![sep];
        assert(t.drop_last() =~= s);
        assert(split_on(t, sep) == before.push(Seq::empty()));
        lemma_split_append(t, last, sep);
        assert(before.push(Seq::<char>::empty()).drop_last() =~= before);
        assert(Seq::<char>::empty() + last =~= last);
        assert(split_on(t + last, sep) =~= pieces);
    }
}

/// The number that decimal digits stand for.
pub open spec fn decimal_number(s: Seq<char>) -> int
    decreases s.len(),
{
    if s.len() == 0 {
        0
    } else {
        10 * decimal_number(s.drop_last()) + (s.last() as int - 48)
    }
}

/// A number in decimal digits stands for itself, without zeros in front.
pub proof fn lemma_decimal_digits(n: int)
    requires
        0 <= n,
    ensures
        decimal_number(digits_of(n, 10)) == n,
        digits_of(n, 10).len() > 0,
        forall|i: int|
            0 <= i < digits_of(n, 10).len() ==> '0' <= #[trigger] digits_of(n, 10)[i] <= '9',
        digits_of(n, 10)[0] == '0' ==> n == 0 && digits_of(n, 10).len() == 1,
    decreases n,
{
    let s = digits_of(n, 10);
    if n < 10 {
        assert(s.drop_last() =~= Seq::empty());
        assert(decimal_number(s.drop_last()) == 0);
        assert(s.last() as int == 48 + n);
    } else {
        let t = digits_of(n / 10, 10);
        lemma_decimal_digits(n / 10);
        assert(s.drop_last() =~= t);
        assert(s[0] == t[0]);
        assert(s.last() as int == 48 + n % 10);
        assert forall|i: int| 0 <= i < s.len() implies '0' <= #[trigger] s[i] <= '9' by {
            if i < t.len() {
                assert(s[i] == t[i]);
            }
        }
    }
}

/// Padding makes a text as wide as asked for, at its left or right, and cuts
/// nothing off.
pub proof fn lemma_padding(s: Seq<char>, c: char, width: int)
    ensures
        ({
            let n = if s.len() < width {
                width
            } else {
                s.len() as int
            };
            let left = padded_left(s, c, width);
            let right = padded_right(s, width);
            &&& left.len() == n
            &&& right.len() == n
            &&& left.skip(n - s.len()) == s
            &&& right.take(s.len() as int) == s
            &&& forall|i: int| 0 <= i < n - s.len() ==> #[trigger] left[i] == c
            &&& forall|i: int| s.len() <= i < n ==> #[trigger] right[i] == ' '
        }),
{
    let n = if s.len() < width {
        width
    } else {
        s.len() as int
    };
    assert(padded_left(s, c, width).skip(n - s.len()) =~= s);
    assert(padded_right(s, width).take(s.len() as int) =~= s);
}

} // verus!
