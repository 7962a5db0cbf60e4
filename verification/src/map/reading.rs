//! What mapfiles tell: laws on how each further line changes what the text
//! before it told, whoever wrote it.

use super::format::{
    filled, ignorable, is_map, parsed, read_lines, reports, with_line, Draft, Fault, MapParseError,
    Status,
};
use super::{Phase, RescueMap, SectorStatus};
use crate::text::number::{digit_value, digits_value, number_value, NumberError};
use crate::text::{
    is_space, lemma_some_piece, lemma_split_line, lemma_word_ends, lemma_word_goes_on, split_on,
    words, words_open,
};
use vstd::prelude::*;

verus! {

/// A blank, a tab, or another control character that only makes space.
pub open spec fn is_blank(c: char) -> bool {
    c == ' ' || c == '\t' || c == '\r' || c as int == 11 || c as int == 12
}

/// Only blanks.
pub open spec fn blanks(s: Seq<char>) -> bool {
    forall|i: int| 0 <= i < s.len() ==> is_blank(#[trigger] s[i])
}

/// A word: printable ASCII characters.
pub open spec fn is_word(s: Seq<char>) -> bool {
    s.len() > 0 && forall|i: int| 0 <= i < s.len() ==> '!' <= #[trigger] s[i] <= '~'
}

/// The words `w` with the gaps before, between and behind them.
pub open spec fn woven(gaps: Seq<Seq<char>>, w: Seq<Seq<char>>) -> Seq<char>
    decreases w.len(),
{
    if w.len() == 0 {
        gaps[0]
    } else {
        woven(gaps.drop_last(), w.drop_last()) + w.last() + gaps.last()
    }
}

/// The line has the words `w`, with blanks between them, and perhaps before and
/// behind them.
pub open spec fn has_words(line: Seq<char>, w: Seq<Seq<char>>) -> bool {
    exists|gaps: Seq<Seq<char>>| #[trigger] are_gaps(gaps, w) && line == woven(gaps, w)
}

pub open spec fn are_gaps(gaps: Seq<Seq<char>>, w: Seq<Seq<char>>) -> bool {
    &&& gaps.len() == w.len() + 1
    &&& forall|k: int| 0 <= k < w.len() ==> is_word(#[trigger] w[k])
    &&& forall|k: int| 0 <= k < gaps.len() ==> blanks(#[trigger] gaps[k])
    &&& forall|k: int| 0 < k < gaps.len() - 1 ==> (#[trigger] gaps[k]).len() > 0
}

/// The value of a digit; hexadecimal ones may be of either case.
pub open spec fn digit(c: char) -> int {
    if '0' <= c <= '9' {
        c as int - 48
    } else if 'a' <= c <= 'f' {
        c as int - 87
    } else {
        c as int - 55
    }
}

/// The number that digits stand for.
pub open spec fn value(s: Seq<char>, radix: int) -> int
    decreases s.len(),
{
    if s.len() == 0 {
        0
    } else {
        radix * value(s.drop_last(), radix) + digit(s.last())
    }
}

pub open spec fn is_decimal(s: Seq<char>) -> bool {
    s.len() > 0 && forall|i: int| 0 <= i < s.len() ==> '0' <= #[trigger] s[i] <= '9'
}

pub open spec fn is_hexadecimal(s: Seq<char>) -> bool {
    s.len() > 0 && forall|i: int|
        0 <= i < s.len() ==> ('0' <= #[trigger] s[i] <= '9' || 'a' <= s[i] <= 'f' || 'A' <= s[i]
            <= 'F')
}

/// A word is the 64-bit number `v`, in decimal, or in hexadecimal with `0x` or
/// `0X` before it.
pub open spec fn is_number(w: Seq<char>, v: int) -> bool {
    &&& 0 <= v <= u64::MAX
    &&& {
        ||| is_decimal(w) && value(w, 10) == v
        ||| w.len() > 2 && w[0] == '0' && (w[1] == 'x' || w[1] == 'X') && is_hexadecimal(w.skip(2))
            && value(w.skip(2), 16) == v
    }
}

/// The character for what imaging is doing.
pub open spec fn is_phase(c: char, phase: Phase) -> bool {
    match phase {
        Phase::Copying => c == '?',
        Phase::Trimming => c == '*',
        Phase::Scraping => c == '/',
        Phase::Retrying => c == '-',
        Phase::Finished => c == '+',
    }
}

/// The character for a status.
pub open spec fn is_status(c: char, status: SectorStatus) -> bool {
    match status {
        SectorStatus::NonTried => c == '?',
        SectorStatus::NonTrimmed => c == '*',
        SectorStatus::NonScraped => c == '/',
        SectorStatus::Bad => c == '-',
        SectorStatus::Rescued => c == '+',
    }
}

/// The text has only whole lines.
pub open spec fn whole_lines(text: Seq<char>) -> bool {
    text.len() == 0 || text.last() == '\n'
}

/// How many lines a text of whole lines has.
pub open spec fn lines_in(text: Seq<char>) -> int
    decreases text.len(),
{
    if text.len() == 0 {
        0
    } else if text.last() == '\n' {
        lines_in(text.drop_last()) + 1
    } else {
        lines_in(text.drop_last())
    }
}

/// The text with one more line.
pub open spec fn and_line(text: Seq<char>, line: Seq<char>) -> Seq<char> {
    text + line + seq!['\n']
}

pub open spec fn is_line(line: Seq<char>) -> bool {
    forall|i: int| 0 <= i < line.len() ==> #[trigger] line[i] != '\n'
}

// Words.

proof fn lemma_woven(gaps: Seq<Seq<char>>, w: Seq<Seq<char>>)
    requires
        are_gaps(gaps, w),
    ensures
        words_open(woven(gaps, w)) == if w.len() == 0 || gaps.last().len() > 0 {
            (w, Seq::<char>::empty())
        } else {
            (w.drop_last(), w.last())
        },
    decreases w.len(),
{
    let empty = Seq::<char>::empty();
    if w.len() == 0 {
        assert(w =~= Seq::empty());
        lemma_blanks_first(gaps[0]);
    } else {
        let g = gaps.drop_last();
        let v = w.drop_last();
        assert forall|k: int| 0 <= k < v.len() implies is_word(#[trigger] v[k]) by {
            assert(v[k] == w[k]);
        }
        assert forall|k: int| 0 <= k < g.len() implies blanks(#[trigger] g[k]) by {
            assert(g[k] == gaps[k]);
        }
        assert forall|k: int| 0 < k < g.len() - 1 implies (#[trigger] g[k]).len() > 0 by {
            assert(g[k] == gaps[k]);
        }
        lemma_woven(g, v);
        let s = woven(g, v);
        let last = w.last();
        assert(is_word(w[w.len() - 1]));
        assert forall|i: int| 0 <= i < last.len() implies !is_space(#[trigger] last[i]) by {}
        if v.len() > 0 {
            assert(g.last() == gaps[gaps.len() - 2]);
        }
        assert(words_open(s) == (v, empty)) by {
            if v.len() == 0 {
                assert(v =~= Seq::empty());
            }
        }
        lemma_word_goes_on(s, last);
        assert(empty + last =~= last);
        let gap = gaps.last();
        assert(blanks(gaps[gaps.len() - 1]));
        if gap.len() > 0 {
            assert forall|i: int| 0 <= i < gap.len() implies is_space(#[trigger] gap[i]) by {}
            lemma_word_ends(s + last, gap);
            assert(v.push(last) =~= w);
        } else {
            assert(s + last + gap =~= s + last);
        }
    }
}

proof fn lemma_blanks_first(s: Seq<char>)
    requires
        blanks(s),
    ensures
        words_open(s) == (Seq::<Seq<char>>::empty(), Seq::<char>::empty()),
    decreases s.len(),
{
    if s.len() > 0 {
        assert forall|i: int| 0 <= i < s.drop_last().len() implies is_blank(
            #[trigger] s.drop_last()[i],
        ) by {
            assert(s.drop_last()[i] == s[i]);
        }
        lemma_blanks_first(s.drop_last());
        assert(is_blank(s[s.len() - 1]));
    }
}

proof fn lemma_words(line: Seq<char>, w: Seq<Seq<char>>)
    requires
        has_words(line, w),
    ensures
        words(line) == w,
        is_line(line),
        forall|k: int| 0 <= k < w.len() ==> is_word(#[trigger] w[k]),
{
    let gaps = choose|gaps: Seq<Seq<char>>| #[trigger] are_gaps(gaps, w) && line == woven(gaps, w);
    lemma_woven(gaps, w);
    lemma_woven_line(gaps, w);
    if w.len() > 0 {
        assert(is_word(w[w.len() - 1]));
        assert(w.drop_last().push(w.last()) =~= w);
    }
}

proof fn lemma_woven_line(gaps: Seq<Seq<char>>, w: Seq<Seq<char>>)
    requires
        are_gaps(gaps, w),
    ensures
        is_line(woven(gaps, w)),
    decreases w.len(),
{
    if w.len() == 0 {
        assert(blanks(gaps[0]));
    } else {
        let g = gaps.drop_last();
        let v = w.drop_last();
        assert forall|k: int| 0 <= k < v.len() implies is_word(#[trigger] v[k]) by {
            assert(v[k] == w[k]);
        }
        assert forall|k: int| 0 <= k < g.len() implies blanks(#[trigger] g[k]) by {
            assert(g[k] == gaps[k]);
        }
        assert forall|k: int| 0 < k < g.len() - 1 implies (#[trigger] g[k]).len() > 0 by {
            assert(g[k] == gaps[k]);
        }
        lemma_woven_line(g, v);
        assert(is_word(w[w.len() - 1]));
        assert(blanks(gaps[gaps.len() - 1]));
        let s = woven(gaps, w);
        let a = woven(g, v);
        assert forall|i: int| 0 <= i < s.len() implies #[trigger] s[i] != '\n' by {
            if i < a.len() {
                assert(s[i] == a[i]);
            } else if i < a.len() + w.last().len() {
                assert(s[i] == w.last()[i - a.len()]);
            } else {
                assert(s[i] == gaps.last()[i - a.len() - w.last().len()]);
            }
        }
    }
}

// Numbers.

/// Digits are read as what they stand for, up to the largest number.
pub proof fn lemma_value(s: Seq<char>, radix: int)
    requires
        radix == 10 || radix == 16,
        forall|i: int|
            0 <= i < s.len() ==> ('0' <= #[trigger] s[i] <= '9' || (radix == 16 && ('a' <= s[i]
                <= 'f' || 'A' <= s[i] <= 'F'))),
    ensures
        value(s, radix) >= 0,
        digits_value(s, radix) == if value(s, radix) <= u64::MAX {
            Ok::<int, NumberError>(value(s, radix))
        } else {
            Err(NumberError::TooLarge)
        },
    decreases s.len(),
{
    if s.len() > 0 {
        let t = s.drop_last();
        assert forall|i: int| 0 <= i < t.len() implies ('0' <= #[trigger] t[i] <= '9' || (radix
            == 16 && ('a' <= t[i] <= 'f' || 'A' <= t[i] <= 'F'))) by {
            assert(t[i] == s[i]);
        }
        lemma_value(t, radix);
        let c = s[s.len() - 1];
        assert(digit_value(c, radix) == Some(digit(c)));
        let v = value(t, radix);
        assert(radix * v == v * radix) by (nonlinear_arith);
        assert(radix * v >= v) by (nonlinear_arith)
            requires
                v >= 0,
                radix >= 10,
        ;
    }
}

/// Numbers are read as what they stand for.
pub proof fn lemma_numbers_are_read(w: Seq<char>, v: int)
    requires
        is_number(w, v),
    ensures
        number_value(w) == Ok::<int, NumberError>(v),
{
    if is_decimal(w) && value(w, 10) == v {
        assert('0' <= w[0] <= '9');
        if w.len() >= 2 {
            assert('0' <= w[1] <= '9');
        }
        lemma_value(w, 10);
    } else {
        let d = w.skip(2);
        assert(d[0] != '+');
        lemma_value(d, 16);
    }
}

proof fn lemma_digits_only(s: Seq<char>, radix: int, i: int)
    requires
        radix == 10 || radix == 16,
        digits_value(s, radix) is Ok,
        0 <= i < s.len(),
    ensures
        '0' <= s[i] <= '9' || (radix == 16 && ('a' <= s[i] <= 'f' || 'A' <= s[i] <= 'F')),
    decreases s.len(),
{
    if i < s.len() - 1 {
        lemma_digits_only(s.drop_last(), radix, i);
        assert(s.drop_last()[i] == s[i]);
    }
}

/// Nothing else is read as a number, but for a `+` before the digits.
pub proof fn lemma_only_numbers_are_read(w: Seq<char>)
    requires
        number_value(w) is Ok,
    ensures
        ({
            let v = number_value(w)->Ok_0;
            ||| is_number(w, v)
            ||| w.len() > 0 && w[0] == '+' && is_number(w.drop_first(), v)
            ||| w.len() > 2 && w[2] == '+' && is_number(w.remove(2), v)
        }),
{
    let hex = w.len() >= 2 && w[0] == '0' && (w[1] == 'x' || w[1] == 'X');
    let radix = if hex {
        16int
    } else {
        10
    };
    let s = if hex {
        w.skip(2)
    } else {
        w
    };
    let d = if s[0] == '+' {
        s.drop_first()
    } else {
        s
    };
    assert forall|i: int| 0 <= i < d.len() implies ('0' <= #[trigger] d[i] <= '9' || (radix == 16
        && ('a' <= d[i] <= 'f' || 'A' <= d[i] <= 'F'))) by {
        lemma_digits_only(d, radix, i);
    }
    lemma_value(d, radix);
    if hex {
        if s[0] == '+' {
            assert(w.remove(2).skip(2) =~= d);
        }
    }
}

/// A `+` before the digits makes no difference.
pub proof fn lemma_plus_makes_no_difference(w: Seq<char>, v: int)
    requires
        is_number(w, v),
    ensures
        is_decimal(w) && value(w, 10) == v ==> number_value(seq!['+'] + w) == Ok::<
            int,
            NumberError,
        >(v),
        !is_decimal(w) ==> number_value(w.insert(2, '+')) == Ok::<int, NumberError>(v),
{
    if is_decimal(w) && value(w, 10) == v {
        let p = seq!['+'] + w;
        assert(p.drop_first() =~= w);
        lemma_value(w, 10);
    }
    if !is_decimal(w) {
        let p = w.insert(2, '+');
        assert(p.skip(2).drop_first() =~= w.skip(2));
        assert(p[0] == '0' && p[1] == w[1]);
        lemma_value(w.skip(2), 16);
    }
}

/// Too large numbers are told from texts that are no numbers, and both from
/// texts without digits.
pub proof fn lemma_number_faults(w: Seq<char>, k: int)
    ensures
        w.len() == 0 ==> number_value(w) == Err::<int, NumberError>(NumberError::Empty),
        is_decimal(w) && value(w, 10) > u64::MAX ==> number_value(w) == Err::<int, NumberError>(
            NumberError::TooLarge,
        ),
        w.len() > 2 && w[0] == '0' && (w[1] == 'x' || w[1] == 'X') && is_hexadecimal(w.skip(2))
            && value(w.skip(2), 16) > u64::MAX ==> number_value(w) == Err::<int, NumberError>(
            NumberError::TooLarge,
        ),
        0 < k < w.len() && is_decimal(w.take(k)) && value(w.take(k), 10) <= u64::MAX && !('0'
            <= w[k] <= '9') && !(k == 1 && w[0] == '0' && (w[1] == 'x' || w[1] == 'X'))
            ==> number_value(w) == Err::<int, NumberError>(NumberError::InvalidDigit),
{
    if is_decimal(w) {
        assert('0' <= w[0] <= '9');
        if w.len() >= 2 {
            assert('0' <= w[1] <= '9');
        }
        lemma_value(w, 10);
    }
    if w.len() > 2 && is_hexadecimal(w.skip(2)) {
        assert(w.skip(2)[0] != '+');
        lemma_value(w.skip(2), 16);
    }
    if 0 < k < w.len() && is_decimal(w.take(k)) && value(w.take(k), 10) <= u64::MAX && !('0'
        <= w[k] <= '9') && !(k == 1 && w[0] == '0' && (w[1] == 'x' || w[1] == 'X')) {
        let t = w.take(k);
        assert('0' <= t[0] <= '9');
        assert(t[0] == w[0]);
        if k >= 2 {
            assert('0' <= t[1] <= '9');
            assert(t[1] == w[1]);
        }
        lemma_value(t, 10);
        lemma_invalid(w, k);
    }
}

proof fn lemma_invalid(w: Seq<char>, k: int)
    requires
        0 <= k < w.len(),
        digits_value(w.take(k), 10) is Ok,
        !('0' <= w[k] <= '9'),
    ensures
        digits_value(w, 10) == Err::<int, NumberError>(NumberError::InvalidDigit),
    decreases w.len(),
{
    if k < w.len() - 1 {
        assert(w.drop_last().take(k) =~= w.take(k));
        lemma_invalid(w.drop_last(), k);
    } else {
        assert(w.drop_last() =~= w.take(k));
    }
}

// Lines.

proof fn lemma_lines(text: Seq<char>)
    ensures
        split_on(text, '\n').len() == lines_in(text) + 1,
        whole_lines(text) ==> split_on(text, '\n').last() == Seq::<char>::empty(),
    decreases text.len(),
{
    lemma_some_piece(text, '\n');
    if text.len() > 0 {
        lemma_lines(text.drop_last());
    }
}

proof fn lemma_blank_is_ignorable(line: Seq<char>)
    requires
        blanks(line),
    ensures
        ignorable(line),
{
    lemma_blanks_first(line);
}

/// What a text of whole lines tells is what its lines tell.
proof fn lemma_told(text: Seq<char>)
    requires
        whole_lines(text),
    ensures
        ({
            let lines = split_on(text, '\n').drop_last();
            &&& lines.len() == lines_in(text)
            &&& split_on(text, '\n') == lines.push(Seq::empty())
            &&& parsed(text) == match read_lines(lines) {
                Ok(draft) => match draft.status {
                    Some(s) => Ok((s, draft.bytes)),
                    None => Err(Fault::Empty),
                },
                Err(f) => Err(f),
            }
        }),
{
    lemma_lines(text);
    let all = split_on(text, '\n');
    let lines = all.drop_last();
    assert(all =~= lines.push(Seq::empty()));
    lemma_blank_is_ignorable(Seq::empty());
}

/// What a text tells with one more line.
proof fn lemma_line(text: Seq<char>, line: Seq<char>)
    requires
        whole_lines(text),
        is_line(line),
    ensures
        ({
            let lines = split_on(text, '\n').drop_last();
            &&& whole_lines(and_line(text, line))
            &&& split_on(and_line(text, line), '\n').drop_last() == lines.push(line)
            &&& read_lines(lines.push(line)) == match read_lines(lines) {
                Ok(draft) => with_line(draft, line, lines_in(text) + 1),
                Err(f) => Err(f),
            }
        }),
{
    lemma_told(text);
    let lines = split_on(text, '\n').drop_last();
    lemma_split_line(text, line, '\n');
    assert(lines.push(Seq::<char>::empty()).drop_last() =~= lines);
    assert(Seq::<char>::empty() + line =~= line);
    assert(split_on(and_line(text, line), '\n') =~= lines.push(line).push(Seq::empty()));
    assert(split_on(and_line(text, line), '\n').drop_last() =~= lines.push(line));
    assert(lines.push(line).drop_last() =~= lines);
    assert(lines.push(line).last() == line);
    assert(and_line(text, line).last() == '\n');
}

/// Comments and blank lines tell nothing.
pub proof fn lemma_comments_tell_nothing(
    text: Seq<char>,
    gap: Seq<char>,
    comment: Seq<char>,
)
    requires
        whole_lines(text),
        blanks(gap),
        is_line(comment),
        comment.len() > 0 ==> comment[0] == '#',
    ensures
        parsed(and_line(text, gap + comment)) == parsed(text),
{
    let line = gap + comment;
    assert(ignorable(line)) by {
        if comment.len() == 0 {
            assert(line =~= gap);
            lemma_blank_is_ignorable(gap);
        } else {
            lemma_blanks_first(gap);
            lemma_word_first(gap, comment);
        }
    }
    assert forall|i: int| 0 <= i < line.len() implies #[trigger] line[i] != '\n' by {
        if i < gap.len() {
            assert(is_blank(gap[i]));
            assert(line[i] == gap[i]);
        } else {
            assert(line[i] == comment[i - gap.len()]);
        }
    }
    lemma_told(text);
    lemma_line(text, line);
    lemma_told(and_line(text, line));
}

proof fn lemma_word_first(gap: Seq<char>, s: Seq<char>)
    requires
        blanks(gap),
        s.len() > 0,
        s[0] == '#',
    ensures
        words(gap + s).len() > 0,
        words(gap + s)[0].len() > 0,
        words(gap + s)[0][0] == '#',
{
    lemma_word_first_open(gap, s);
}

proof fn lemma_word_first_open(gap: Seq<char>, s: Seq<char>)
    requires
        blanks(gap),
        s.len() > 0,
        s[0] == '#',
    ensures
        ({
            let (done, word) = words_open(gap + s);
            if done.len() > 0 {
                done[0].len() > 0 && done[0][0] == '#'
            } else {
                word.len() > 0 && word[0] == '#'
            }
        }),
    decreases s.len(),
{
    let t = s.drop_last();
    assert((gap + s).drop_last() =~= gap + t);
    let (done, word) = words_open(gap + t);
    if s.len() == 1 {
        assert(gap + t =~= gap);
        lemma_blanks_first(gap);
        assert((gap + s).last() == '#');
        assert(words_open(gap + s) == (done, word.push('#')));
    } else {
        assert(t[0] == s[0]);
        lemma_word_first_open(gap, t);
        let c = s.last();
        if !is_space(c) {
            assert(words_open(gap + s) == (done, word.push(c)));
        } else if word.len() > 0 {
            assert(words_open(gap + s) == (done.push(word), Seq::<char>::empty()));
        } else {
            assert(words_open(gap + s) == (done, word));
        }
    }
}

/// The first line that is no comment tells the position, what imaging is
/// doing, and the pass; without a pass it is the first.
pub proof fn lemma_first_line_tells_status(
    text: Seq<char>,
    line: Seq<char>,
    w: Seq<Seq<char>>,
    pos: int,
    phase: Phase,
    pass: int,
)
    requires
        whole_lines(text),
        parsed(text) == Err::<(Status, Seq<SectorStatus>), Fault>(Fault::Empty),
        has_words(line, w),
        w.len() == 2 || w.len() == 3,
        w[0][0] != '#',
        is_number(w[0], pos),
        w[1].len() == 1,
        is_phase(w[1][0], phase),
        w.len() == 2 ==> pass == 1,
        w.len() == 3 ==> is_number(w[2], pass) && pass <= u32::MAX,
    ensures
        parsed(and_line(text, line)) == Ok::<(Status, Seq<SectorStatus>), Fault>(
            ((pos, phase, pass), Seq::empty()),
        ),
{
    lemma_words(line, w);
    lemma_told(text);
    lemma_line(text, line);
    lemma_told(and_line(text, line));
    lemma_numbers_are_read(w[0], pos);
    if w.len() == 3 {
        lemma_numbers_are_read(w[2], pass);
    }
    lemma_no_bytes_yet(split_on(text, '\n').drop_last());
}

/// Before the status line no bytes are told.
proof fn lemma_no_bytes_yet(lines: Seq<Seq<char>>)
    ensures
        read_lines(lines) matches Ok(draft) ==> draft.status is None ==> draft.bytes
            == Seq::<SectorStatus>::empty(),
        read_lines(lines) != Err::<Draft, Fault>(Fault::Empty),
    decreases lines.len(),
{
    if lines.len() > 0 {
        lemma_no_bytes_yet(lines.drop_last());
    }
}

/// Each further line tells the status of the next bytes, which must follow
/// on those before.
pub proof fn lemma_further_lines_tell_bytes(
    text: Seq<char>,
    line: Seq<char>,
    w: Seq<Seq<char>>,
    told: Status,
    bytes: Seq<SectorStatus>,
    start: int,
    len: int,
    status: SectorStatus,
)
    requires
        whole_lines(text),
        parsed(text) == Ok::<(Status, Seq<SectorStatus>), Fault>((told, bytes)),
        has_words(line, w),
        w.len() == 3,
        is_number(w[0], start),
        is_number(w[1], len),
        w[2].len() == 1,
        is_status(w[2][0], status),
        start + len <= u64::MAX,
    ensures
        parsed(and_line(text, line)) == if start == bytes.len() {
            Ok::<(Status, Seq<SectorStatus>), Fault>(
                (told, bytes + Seq::new(len as nat, |i: int| status)),
            )
        } else {
            Err(Fault::NotContiguous { line: lines_in(text) + 1 })
        },
{
    lemma_words(line, w);
    lemma_told(text);
    lemma_line(text, line);
    lemma_told(and_line(text, line));
    lemma_numbers_are_read(w[0], start);
    lemma_numbers_are_read(w[1], len);
    assert(filled(len, status) =~= Seq::new(len as nat, |i: int| status));
    assert(w[0][0] != '#');
}

/// A line whose bytes end behind the largest 64-bit number is a fault.
pub proof fn lemma_too_long_lines(
    text: Seq<char>,
    line: Seq<char>,
    w: Seq<Seq<char>>,
    told: Status,
    bytes: Seq<SectorStatus>,
    start: int,
    len: int,
    status: SectorStatus,
)
    requires
        whole_lines(text),
        parsed(text) == Ok::<(Status, Seq<SectorStatus>), Fault>((told, bytes)),
        has_words(line, w),
        w.len() == 3,
        is_number(w[0], start),
        is_number(w[1], len),
        w[2].len() == 1,
        is_status(w[2][0], status),
        start == bytes.len(),
        start + len > u64::MAX,
    ensures
        parsed(and_line(text, line)) == Err::<(Status, Seq<SectorStatus>), Fault>(Fault::TooLong),
{
    lemma_words(line, w);
    lemma_told(text);
    lemma_line(text, line);
    lemma_told(and_line(text, line));
    lemma_numbers_are_read(w[0], start);
    lemma_numbers_are_read(w[1], len);
    assert(w[0][0] != '#');
}

/// A first line that is no comment and has neither two nor three words is a
/// fault, and so is one that does not tell what imaging is doing.
pub proof fn lemma_faulty_status_lines(text: Seq<char>, line: Seq<char>, w: Seq<Seq<char>>)
    requires
        whole_lines(text),
        parsed(text) == Err::<(Status, Seq<SectorStatus>), Fault>(Fault::Empty),
        has_words(line, w),
        w.len() > 0,
        w[0][0] != '#',
        w.len() < 2 || w.len() > 3 || w[1].len() != 1 || forall|p: Phase| !is_phase(w[1][0], p),
    ensures
        parsed(and_line(text, line)) matches Err(Fault::Syntax { line: n, .. }) && n == lines_in(
            text,
        ) + 1,
{
    lemma_words(line, w);
    lemma_told(text);
    lemma_line(text, line);
    lemma_told(and_line(text, line));
    lemma_no_bytes_yet(split_on(text, '\n').drop_last());
    if w.len() >= 2 && w[1].len() == 1 {
        let c = w[1][0];
        if w.len() <= 3 {
            assert(!is_phase(c, Phase::Copying) && !is_phase(c, Phase::Trimming) && !is_phase(
                c,
                Phase::Scraping,
            ) && !is_phase(c, Phase::Retrying) && !is_phase(c, Phase::Finished));
        }
    }
}

/// A line that is no comment and has another number of words is a fault, and
/// so is one with a status that is none or with a number that is none.
pub proof fn lemma_faulty_lines(text: Seq<char>, line: Seq<char>, w: Seq<Seq<char>>)
    requires
        whole_lines(text),
        parsed(text) is Ok,
        has_words(line, w),
        w.len() > 0,
        w[0][0] != '#',
        w.len() != 3 || w[2].len() != 1 || (forall|s: SectorStatus| !is_status(w[2][0], s)) || (
        exists|i: int|
            0 <= i < w[0].len() && !('0' <= #[trigger] w[0][i] <= '9' || 'a' <= w[0][i] <= 'f'
                || 'A' <= w[0][i] <= 'F' || w[0][i] == 'x' || w[0][i] == 'X' || w[0][i] == '+')),
    ensures
        parsed(and_line(text, line)) matches Err(Fault::Syntax { line: n, .. }) && n == lines_in(
            text,
        ) + 1,
{
    lemma_words(line, w);
    lemma_told(text);
    lemma_line(text, line);
    lemma_told(and_line(text, line));
    if w.len() == 3 {
        if exists|i: int|
            0 <= i < w[0].len() && !('0' <= #[trigger] w[0][i] <= '9' || 'a' <= w[0][i] <= 'f'
                || 'A' <= w[0][i] <= 'F' || w[0][i] == 'x' || w[0][i] == 'X' || w[0][i] == '+') {
            let i = choose|i: int|
                0 <= i < w[0].len() && !('0' <= #[trigger] w[0][i] <= '9' || 'a' <= w[0][i]
                    <= 'f' || 'A' <= w[0][i] <= 'F' || w[0][i] == 'x' || w[0][i] == 'X' || w[0][i]
                    == '+');
            if number_value(w[0]) is Ok {
                lemma_only_number_chars(w[0], i);
            }
        } else if w[2].len() == 1 {
            let c = w[2][0];
            assert(!is_status(c, SectorStatus::NonTried) && !is_status(c, SectorStatus::NonTrimmed)
                && !is_status(c, SectorStatus::NonScraped) && !is_status(c, SectorStatus::Bad)
                && !is_status(c, SectorStatus::Rescued));
        }
    }
}

proof fn lemma_only_number_chars(w: Seq<char>, i: int)
    requires
        number_value(w) is Ok,
        0 <= i < w.len(),
    ensures
        '0' <= w[i] <= '9' || 'a' <= w[i] <= 'f' || 'A' <= w[i] <= 'F' || w[i] == 'x' || w[i] == 'X'
            || w[i] == '+',
{
    let hex = w.len() >= 2 && w[0] == '0' && (w[1] == 'x' || w[1] == 'X');
    let skip = if hex {
        2int
    } else {
        0
    };
    let s = if hex {
        w.skip(2)
    } else {
        w
    };
    if i >= skip {
        if s[0] == '+' {
            if i > skip {
                lemma_digits_only(
                    s.drop_first(),
                    if hex {
                        16
                    } else {
                        10
                    },
                    i - skip - 1,
                );
            }
        } else {
            lemma_digits_only(
                s,
                if hex {
                    16
                } else {
                    10
                },
                i - skip,
            );
        }
    }
}

/// The first fault counts: what follows it changes nothing.
pub proof fn lemma_first_fault_counts(text: Seq<char>, line: Seq<char>)
    requires
        whole_lines(text),
        is_line(line),
        parsed(text) is Err,
        parsed(text) != Err::<(Status, Seq<SectorStatus>), Fault>(Fault::Empty),
    ensures
        parsed(and_line(text, line)) == parsed(text),
{
    lemma_told(text);
    lemma_line(text, line);
    lemma_told(and_line(text, line));
}

/// An empty text tells nothing.
pub proof fn lemma_empty_text()
    ensures
        parsed(Seq::empty()) == Err::<(Status, Seq<SectorStatus>), Fault>(Fault::Empty),
{
    lemma_told(Seq::empty());
    assert(split_on(Seq::empty(), '\n').drop_last() =~= Seq::empty());
}

/// The map that is read has what the text tells.
pub proof fn lemma_map_has_what_is_told(m: RescueMap, told: (Status, Seq<SectorStatus>), i: int)
    requires
        is_map(m, told),
    ensures
        m.wf(),
        m.size == told.1.len(),
        0 <= i < told.1.len() ==> m@[i] == told.1[i],
        m.current_pos == told.0.0,
        m.current_phase == told.0.1,
        m.pass == told.0.2,
{
}

/// The error that is given is the fault that was found, in the line where
/// it was found.
pub proof fn lemma_faults_are_reported(e: MapParseError, f: Fault)
    requires
        reports(e, f),
    ensures
        f matches Fault::Syntax { line: n, msg: m } ==> (e matches MapParseError::Syntax {
            line,
            msg,
        } && line == n && msg@ == m),
        f matches Fault::NotContiguous { line: n } ==> (e matches MapParseError::NotContiguous {
            line,
        } && line == n),
        f is Empty ==> e is Empty,
        !(f is TooLong),
{
}

} // verus!
