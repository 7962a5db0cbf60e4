//! Text as sequences of characters: splitting, trimming and quoting.

pub mod laws;
pub mod number;

use vstd::prelude::*;
use vstd::string::StringExecFns;

verus! {

/// Specifies `String::push`: it appends the character.
pub assume_specification[ String::push ](s: &mut String, c: char)
    ensures
        final(s)@ == old(s)@.push(c),
;

/// How `{:?}` writes a string: in double quotes, with special characters
/// escaped.
pub uninterp spec fn debug_quoted(s: Seq<char>) -> Seq<char>;

/// Calls `format!` with `{:?}` on a string. What is escaped and how depends
/// on the string alone.
#[verifier::external_body]
pub(crate) fn quoted(s: &str) -> (r: String)
    ensures
        r@ == debug_quoted(s@),
{
    format!("{s:?}")
}

/// The characters of a string.
pub fn chars_of(s: &str) -> (v: Vec<char>)
    ensures
        v@ == s@,
{
    let mut v: Vec<char> = Vec::new();
    for c in it: s.chars()
        invariant
            it.seq() == s@,
            v@ == it.seq().take(it.index()),
    {
        v.push(c);
        assert(it.seq().take(it.index() + 1) =~= it.seq().take(it.index()).push(c));
    }
    assert(s@.take(s@.len() as int) =~= s@);
    v
}

/// Append characters to a string.
pub fn push_chars(s: &mut String, v: &[char])
    ensures
        final(s)@ == old(s)@ + v@,
{
    let n: usize = v.len();
    let mut i: usize = 0;
    assert(old(s)@ + v@.take(0) =~= old(s)@);
    while i < n
        invariant
            i <= n,
            n == v@.len(),
            s@ == old(s)@ + v@.take(i as int),
        decreases n - i,
    {
        s.push(v[i]);
        assert(old(s)@ + v@.take(i + 1) =~= (old(s)@ + v@.take(i as int)).push(v@[i as int]));
        i = i + 1;
    }
    assert(v@.take(n as int) =~= v@);
}

/// The string of some characters.
pub fn to_text(v: &[char]) -> (s: String)
    ensures
        s@ == v@,
{
    let mut s: String = String::new();
    push_chars(&mut s, v);
    assert(s@ =~= v@);
    s
}

/// Append a string to a string.
pub fn push_text(s: &mut String, t: &str)
    ensures
        final(s)@ == old(s)@ + t@,
{
    s.append(t);
}

/// The characters with the property White_Space.
pub open spec fn is_space(c: char) -> bool {
    ||| 0x09 <= c as int <= 0x0D
    ||| c as int == 0x20
    ||| c as int == 0x85
    ||| c as int == 0xA0
    ||| c as int == 0x1680
    ||| 0x2000 <= c as int <= 0x200A
    ||| c as int == 0x2028
    ||| c as int == 0x2029
    ||| c as int == 0x202F
    ||| c as int == 0x205F
    ||| c as int == 0x3000
}

pub fn space(c: char) -> (r: bool)
    ensures
        r == is_space(c),
{
    let u: u32 = c as u32;
    (0x09 <= u && u <= 0x0D) || u == 0x20 || u == 0x85 || u == 0xA0 || u == 0x1680 || (0x2000 <= u
        && u <= 0x200A) || u == 0x2028 || u == 0x2029 || u == 0x202F || u == 0x205F || u == 0x3000
}

/// The pieces of `s` between the separators `sep`: one more than there are
/// separators.
pub open spec fn split_on(s: Seq<char>, sep: char) -> Seq<Seq<char>>
    decreases s.len(),
{
    if s.len() == 0 {
        seq![Seq::empty()]
    } else {
        let before = split_on(s.drop_last(), sep);
        if s.last() == sep {
            before.push(Seq::empty())
        } else {
            before.drop_last().push(before.last().push(s.last()))
        }
    }
}

/// The words of `s`, with the last one apart: it is not finished, and may
/// be empty.
pub open spec fn words_open(s: Seq<char>) -> (Seq<Seq<char>>, Seq<char>)
    decreases s.len(),
{
    if s.len() == 0 {
        (Seq::empty(), Seq::empty())
    } else {
        let (done, word) = words_open(s.drop_last());
        if !is_space(s.last()) {
            (done, word.push(s.last()))
        } else if word.len() > 0 {
            (done.push(word), Seq::empty())
        } else {
            (done, word)
        }
    }
}

/// The words of `s`: its longest stretches without white space.
pub open spec fn words(s: Seq<char>) -> Seq<Seq<char>> {
    let (done, word) = words_open(s);
    if word.len() > 0 {
        done.push(word)
    } else {
        done
    }
}

/// The views of some lists of characters.
pub open spec fn views(v: Seq<Vec<char>>) -> Seq<Seq<char>> {
    Seq::new(v.len(), |i: int| v[i]@)
}

/// Split at a separator.
pub fn split(s: &[char], sep: char) -> (r: Vec<Vec<char>>)
    ensures
        views(r@) == split_on(s@, sep),
        r@.len() > 0,
{
    let n: usize = s.len();
    let mut done: Vec<Vec<char>> = Vec::new();
    let mut piece: Vec<char> = Vec::new();
    let mut i: usize = 0;
    assert(s@.take(0) =~= Seq::empty());
    assert(views(done@).push(piece@) =~= seq![Seq::<char>::empty()]);
    while i < n
        invariant
            i <= n,
            n == s@.len(),
            views(done@).push(piece@) == split_on(s@.take(i as int), sep),
        decreases n - i,
    {
        let c: char = s[i];
        let ghost before = views(done@).push(piece@);
        proof {
            assert(s@.take(i + 1).drop_last() =~= s@.take(i as int));
            assert(before.drop_last() =~= views(done@));
        }
        if c == sep {
            let ghost old_done = done@;
            done.push(piece);
            piece = Vec::new();
            assert(views(done@) =~= before);
            assert(views(done@).push(piece@) =~= before.push(Seq::empty()));
        } else {
            let ghost old_piece = piece@;
            piece.push(c);
            assert(views(done@).push(piece@) =~= before.drop_last().push(old_piece.push(c)));
        }
        i = i + 1;
    }
    let ghost all = views(done@).push(piece@);
    done.push(piece);
    assert(views(done@) =~= all);
    assert(s@.take(n as int) =~= s@);
    done
}

/// Split into words.
pub fn split_words(s: &[char]) -> (r: Vec<Vec<char>>)
    ensures
        views(r@) == words(s@),
{
    let n: usize = s.len();
    let mut done: Vec<Vec<char>> = Vec::new();
    let mut word: Vec<char> = Vec::new();
    let mut i: usize = 0;
    assert(s@.take(0) =~= Seq::empty());
    assert(views(done@) =~= Seq::empty());
    while i < n
        invariant
            i <= n,
            n == s@.len(),
            words_open(s@.take(i as int)) == (views(done@), word@),
        decreases n - i,
    {
        let c: char = s[i];
        proof {
            assert(s@.take(i + 1).drop_last() =~= s@.take(i as int));
        }
        if !space(c) {
            word.push(c);
        } else if word.len() > 0 {
            let ghost before = views(done@).push(word@);
            done.push(word);
            word = Vec::new();
            assert(views(done@) =~= before);
            assert(word@ =~= Seq::empty());
        }
        i = i + 1;
    }
    assert(s@.take(n as int) =~= s@);
    if word.len() > 0 {
        let ghost all = views(done@).push(word@);
        done.push(word);
        assert(views(done@) =~= all);
    }
    done
}

/// `s` without the white space at its start.
pub open spec fn trimmed_start(s: Seq<char>) -> Seq<char>
    decreases s.len(),
{
    if s.len() > 0 && is_space(s[0]) {
        trimmed_start(s.drop_first())
    } else {
        s
    }
}

/// `s` without the white space at its end.
pub open spec fn trimmed_end(s: Seq<char>) -> Seq<char>
    decreases s.len(),
{
    if s.len() > 0 && is_space(s.last()) {
        trimmed_end(s.drop_last())
    } else {
        s
    }
}

/// `s` without the white space at its ends.
pub open spec fn trimmed(s: Seq<char>) -> Seq<char> {
    trimmed_end(trimmed_start(s))
}

/// Cut off white space at both ends.
pub fn trim(s: &[char]) -> (r: Vec<char>)
    ensures
        r@ == trimmed(s@),
{
    let n: usize = s.len();
    let mut a: usize = 0;
    assert(s@.subrange(0, n as int) =~= s@);
    while a < n && space(s[a])
        invariant
            a <= n,
            n == s@.len(),
            trimmed_start(s@) == trimmed_start(s@.subrange(a as int, n as int)),
        decreases n - a,
    {
        assert(s@.subrange(a as int, n as int).drop_first() =~= s@.subrange(a + 1, n as int));
        a = a + 1;
    }
    let mut b: usize = n;
    while b > a && space(s[b - 1])
        invariant
            a <= b <= n,
            n == s@.len(),
            trimmed(s@) == trimmed_end(s@.subrange(a as int, b as int)),
        decreases b - a,
    {
        assert(s@.subrange(a as int, b as int).drop_last() =~= s@.subrange(a as int, b - 1));
        b = b - 1;
    }
    let mut r: Vec<char> = Vec::new();
    let mut i: usize = a;
    while i < b
        invariant
            a <= i <= b <= n,
            n == s@.len(),
            r@ == s@.subrange(a as int, i as int),
        decreases b - i,
    {
        r.push(s[i]);
        assert(s@.subrange(a as int, i + 1) =~= s@.subrange(a as int, i as int).push(s@[i as int]));
        i = i + 1;
    }
    r
}

/// The place of the first `c` in `s`.
pub open spec fn first_place(s: Seq<char>, c: char) -> Option<int>
    decreases s.len(),
{
    if s.len() == 0 {
        None
    } else {
        match first_place(s.drop_last(), c) {
            Some(i) => Some(i),
            None => if s.last() == c {
                Some(s.len() - 1)
            } else {
                None
            },
        }
    }
}

/// `s` before and after its first `c`.
pub open spec fn split_first(s: Seq<char>, c: char) -> Option<(Seq<char>, Seq<char>)> {
    match first_place(s, c) {
        Some(i) => Some((s.take(i), s.skip(i + 1))),
        None => None,
    }
}

/// What `first_place` finds is the first place.
pub proof fn lemma_first_place(s: Seq<char>, c: char)
    ensures
        match first_place(s, c) {
            Some(i) => 0 <= i < s.len() && s[i] == c && forall|j: int|
                0 <= j < i ==> #[trigger] s[j] != c,
            None => forall|j: int| 0 <= j < s.len() ==> #[trigger] s[j] != c,
        },
    decreases s.len(),
{
    if s.len() > 0 {
        let t = s.drop_last();
        lemma_first_place(t, c);
        match first_place(t, c) {
            Some(i) => {
                assert(s[i] == t[i]);
                assert forall|j: int| 0 <= j < i implies #[trigger] s[j] != c by {
                    assert(t[j] != c);
                }
            },
            None => {
                assert forall|j: int| 0 <= j < s.len() - 1 implies #[trigger] s[j] != c by {
                    assert(t[j] != c);
                }
            },
        }
    }
}

/// Split at the first `c`.
pub fn split_at_first(s: &[char], c: char) -> (r: Option<(Vec<char>, Vec<char>)>)
    ensures
        match r {
            Some((a, b)) => split_first(s@, c) == Some((a@, b@)),
            None => split_first(s@, c) is None,
        },
{
    let n: usize = s.len();
    let mut a: Vec<char> = Vec::new();
    let mut i: usize = 0;
    proof {
        lemma_first_place(s@, c);
    }
    while i < n && s[i] != c
        invariant
            i <= n,
            n == s@.len(),
            a@ == s@.take(i as int),
            forall|j: int| 0 <= j < i ==> #[trigger] s@[j] != c,
        decreases n - i,
    {
        a.push(s[i]);
        assert(s@.take(i + 1) =~= s@.take(i as int).push(s@[i as int]));
        i = i + 1;
    }
    if i == n {
        return None;
    }
    let mut b: Vec<char> = Vec::new();
    let mut k: usize = i + 1;
    assert(s@.subrange(i + 1, i + 1) =~= Seq::empty());
    while k < n
        invariant
            i < k <= n,
            n == s@.len(),
            b@ == s@.subrange(i + 1, k as int),
        decreases n - k,
    {
        b.push(s[k]);
        assert(s@.subrange(i + 1, k + 1) =~= s@.subrange(i + 1, k as int).push(s@[k as int]));
        k = k + 1;
    }
    assert(b@ =~= s@.skip(i + 1));
    Some((a, b))
}

/// Words are not empty.
pub proof fn lemma_words_not_empty(s: Seq<char>)
    ensures
        forall|i: int| 0 <= i < words(s).len() ==> #[trigger] words(s)[i].len() > 0,
{
    lemma_open_words_not_empty(s);
}

proof fn lemma_open_words_not_empty(s: Seq<char>)
    ensures
        forall|i: int| 0 <= i < words_open(s).0.len() ==> #[trigger] words_open(s).0[i].len() > 0,
    decreases s.len(),
{
    if s.len() > 0 {
        lemma_open_words_not_empty(s.drop_last());
        let before = words_open(s.drop_last()).0;
        assert forall|i: int| 0 <= i < words_open(s).0.len() implies #[trigger] words_open(
            s,
        ).0[i].len() > 0 by {
            if i < before.len() {
                assert(before[i].len() > 0);
            }
        }
    }
}

/// A text that does not start with white space starts with its first word.
pub proof fn lemma_first_char_in_word(s: Seq<char>)
    requires
        s.len() > 0,
        !is_space(s[0]),
    ensures
        words(s).len() > 0,
        words(s)[0].len() > 0,
        words(s)[0][0] == s[0],
{
    lemma_first_char_open(s);
}

proof fn lemma_first_char_open(s: Seq<char>)
    requires
        s.len() > 0,
        !is_space(s[0]),
    ensures
        ({
            let (done, word) = words_open(s);
            if done.len() > 0 {
                done[0].len() > 0 && done[0][0] == s[0]
            } else {
                word.len() > 0 && word[0] == s[0]
            }
        }),
    decreases s.len(),
{
    let before = s.drop_last();
    let (done, word) = words_open(before);
    if s.len() == 1 {
        assert(before =~= Seq::empty());
        assert(s.last() == s[0]);
        assert(words_open(s) == (done, word.push(s.last())));
    } else {
        assert(before[0] == s[0]);
        lemma_first_char_open(before);
        if !is_space(s.last()) {
            assert(words_open(s) == (done, word.push(s.last())));
        } else if word.len() > 0 {
            assert(words_open(s) == (done.push(word), Seq::<char>::empty()));
        } else {
            assert(words_open(s) == (done, word));
        }
    }
}

/// Characters that are no white space go on with the last word.
pub proof fn lemma_word_goes_on(s: Seq<char>, w: Seq<char>)
    requires
        forall|i: int| 0 <= i < w.len() ==> !is_space(#[trigger] w[i]),
    ensures
        words_open(s + w) == (words_open(s).0, words_open(s).1 + w),
    decreases w.len(),
{
    if w.len() == 0 {
        assert(s + w =~= s);
        assert(words_open(s).1 + w =~= words_open(s).1);
    } else {
        assert((s + w).drop_last() =~= s + w.drop_last());
        assert forall|i: int| 0 <= i < w.drop_last().len() implies !is_space(
            #[trigger] w.drop_last()[i],
        ) by {
            assert(w.drop_last()[i] == w[i]);
        }
        lemma_word_goes_on(s, w.drop_last());
        assert(words_open(s).1 + w =~= (words_open(s).1 + w.drop_last()).push(w.last()));
        assert(!is_space(w[w.len() - 1]));
    }
}

/// White space ends a word.
pub proof fn lemma_word_ends(s: Seq<char>, b: Seq<char>)
    requires
        b.len() > 0,
        forall|i: int| 0 <= i < b.len() ==> is_space(#[trigger] b[i]),
        words_open(s).1.len() > 0,
    ensures
        words_open(s + b) == (words_open(s).0.push(words_open(s).1), Seq::<char>::empty()),
    decreases b.len(),
{
    assert((s + b).drop_last() =~= s + b.drop_last());
    assert(is_space(b[b.len() - 1]));
    if b.len() == 1 {
        assert(s + b.drop_last() =~= s);
    } else {
        assert forall|i: int| 0 <= i < b.drop_last().len() implies is_space(
            #[trigger] b.drop_last()[i],
        ) by {
            assert(b.drop_last()[i] == b[i]);
        }
        lemma_word_ends(s, b.drop_last());
    }
}

/// Three words with white space between them.
pub proof fn lemma_three_words(
    a: Seq<char>,
    s: Seq<char>,
    b: Seq<char>,
    t: Seq<char>,
    c: Seq<char>,
)
    requires
        a.len() > 0,
        b.len() > 0,
        c.len() > 0,
        s.len() > 0,
        t.len() > 0,
        forall|i: int| 0 <= i < a.len() ==> !is_space(#[trigger] a[i]),
        forall|i: int| 0 <= i < b.len() ==> !is_space(#[trigger] b[i]),
        forall|i: int| 0 <= i < c.len() ==> !is_space(#[trigger] c[i]),
        forall|i: int| 0 <= i < s.len() ==> is_space(#[trigger] s[i]),
        forall|i: int| 0 <= i < t.len() ==> is_space(#[trigger] t[i]),
    ensures
        words(a + s + b + t + c) == seq![a, b, c],
{
    let empty = Seq::<char>::empty();
    assert(words_open(empty) == (Seq::<Seq<char>>::empty(), empty));
    lemma_word_goes_on(empty, a);
    assert(empty + a =~= a);
    lemma_word_ends(a, s);
    lemma_word_goes_on(a + s, b);
    assert(empty + b =~= b);
    lemma_word_ends(a + s + b, t);
    lemma_word_goes_on(a + s + b + t, c);
    assert(empty + c =~= c);
    assert(words(a + s + b + t + c) =~= seq![a, b, c]);
}

/// There is always at least one piece.
pub proof fn lemma_some_piece(s: Seq<char>, sep: char)
    ensures
        split_on(s, sep).len() > 0,
    decreases s.len(),
{
    if s.len() > 0 {
        lemma_some_piece(s.drop_last(), sep);
    }
}

/// The pieces of a longer text: the first piece of what is appended goes
/// on with the last piece before.
pub proof fn lemma_split_append(s: Seq<char>, t: Seq<char>, sep: char)
    ensures
        split_on(s, sep).len() > 0,
        split_on(t, sep).len() > 0,
        split_on(s + t, sep) == split_on(s, sep).drop_last().push(
            split_on(s, sep).last() + split_on(t, sep)[0],
        ) + split_on(t, sep).drop_first(),
    decreases t.len(),
{
    lemma_some_piece(s, sep);
    lemma_some_piece(t, sep);
    let a = split_on(s, sep);
    let b = split_on(t, sep);
    if t.len() == 0 {
        assert(s + t =~= s);
        assert(a.last() + b[0] =~= a.last());
        assert(a =~= a.drop_last().push(a.last()) + b.drop_first());
    } else {
        let u = t.drop_last();
        assert((s + t).drop_last() =~= s + u);
        lemma_split_append(s, u, sep);
        let c = split_on(u, sep);
        let d = split_on(s + u, sep);
        let e = a.drop_last().push(a.last() + b[0]) + b.drop_first();
        if t.last() == sep {
            assert(d.push(Seq::empty()) =~= e);
        } else {
            if c.len() == 1 {
                assert(d.last() =~= a.last() + c[0]);
                assert(b[0] =~= c[0].push(t.last()));
                assert(d.last().push(t.last()) =~= a.last() + b[0]);
                assert(d.drop_last().push(d.last().push(t.last())) =~= e);
            } else {
                assert(d.last() == c.last());
                assert(b[0] == c[0]);
                assert(d.drop_last().push(d.last().push(t.last())) =~= e);
            }
        }
    }
}

/// A text without the separator is one piece.
pub proof fn lemma_one_piece(s: Seq<char>, sep: char)
    requires
        forall|i: int| 0 <= i < s.len() ==> #[trigger] s[i] != sep,
    ensures
        split_on(s, sep) == seq![s],
    decreases s.len(),
{
    if s.len() > 0 {
        assert forall|i: int| 0 <= i < s.drop_last().len() implies #[trigger] s.drop_last()[i]
            != sep by {
            assert(s.drop_last()[i] == s[i]);
        }
        lemma_one_piece(s.drop_last(), sep);
        assert(s[s.len() - 1] != sep);
        assert(s.drop_last().push(s.last()) =~= s);
        assert(split_on(s, sep) =~= seq![s]);
    } else {
        assert(s =~= Seq::empty());
        assert(split_on(s, sep) =~= seq![s]);
    }
}

/// The pieces of a text to which a line without separators, and a
/// separator, are appended.
pub proof fn lemma_split_line(s: Seq<char>, line: Seq<char>, sep: char)
    requires
        forall|i: int| 0 <= i < line.len() ==> #[trigger] line[i] != sep,
    ensures
        split_on(s + line + seq![sep], sep) == split_on(s, sep).drop_last().push(
            split_on(s, sep).last() + line,
        ).push(Seq::empty()),
{
    lemma_one_piece(line, sep);
    lemma_split_append(s, line, sep);
    assert((s + line + seq![sep]).drop_last() =~= s + line);
    assert(split_on(s + line, sep) =~= split_on(s, sep).drop_last().push(
        split_on(s, sep).last() + line,
    ));
}

/// A prefix without separators goes into the first piece.
pub proof fn lemma_split_prefix(prefix: Seq<char>, s: Seq<char>, sep: char)
    requires
        forall|i: int| 0 <= i < prefix.len() ==> #[trigger] prefix[i] != sep,
    ensures
        split_on(s, sep).len() > 0,
        split_on(prefix + s, sep).len() == split_on(s, sep).len(),
        split_on(prefix + s, sep)[0] == prefix + split_on(s, sep)[0],
        forall|k: int|
            1 <= k < split_on(s, sep).len() ==> #[trigger] split_on(prefix + s, sep)[k] == split_on(
                s,
                sep,
            )[k],
{
    lemma_one_piece(prefix, sep);
    lemma_split_append(prefix, s, sep);
}

} // verus!
