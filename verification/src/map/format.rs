//! GNU ddrescue mapfile (v2) parsing and serialization.
//!
//! Format: comment lines start with `#`. The first non-comment line is
//! `current_pos current_status [current_pass]`, followed by extent lines
//! `pos size status`. All numbers are hexadecimal with `0x` prefix.
//! Compatible files can be resumed with real ddrescue and viewed with
//! ddrescueview.

use super::{Extent, Phase, RescueMap, SectorStatus};
use crate::text::number::{
    digits_of, hex_padded, lemma_decimal_read_back, lemma_hex_read_back, number_value, read_number,
    write_digits, write_hex,
};
use crate::text::{
    chars_of, debug_quoted, lemma_first_char_in_word, lemma_split_append, lemma_split_line,
    lemma_split_prefix, lemma_three_words, lemma_words_not_empty, push_chars, push_text, quoted,
    split, split_on, split_words, to_text, views, words,
};
use vstd::prelude::*;

verus! {

#[derive(Debug)]
pub enum MapParseError {
    Syntax { line: usize, msg: String },
    Empty,
    NotContiguous { line: usize },
}

/// Why a text is no mapfile.
pub enum Fault {
    Syntax { line: int, msg: Seq<char> },
    Empty,
    NotContiguous { line: int },
    /// An extent ends behind the largest 64-bit number.
    TooLong,
}

/// What the status line tells: position, phase and pass.
pub type Status = (int, Phase, int);

/// What was read of a mapfile so far.
pub struct Draft {
    pub status: Option<Status>,
    pub bytes: Seq<SectorStatus>,
}

/// `len` bytes with one status.
pub open spec fn filled(len: int, status: SectorStatus) -> Seq<SectorStatus> {
    Seq::new(len as nat, |i: int| status)
}

pub open spec fn syntax<T>(line: int, msg: Seq<char>) -> Result<T, Fault> {
    Err(Fault::Syntax { line, msg })
}

/// The number that a word stands for.
pub open spec fn number_in(word: Seq<char>, line: int) -> Result<int, Fault> {
    match number_value(word) {
        Ok(v) => Ok(v),
        Err(_) => syntax(line, "invalid number "@ + debug_quoted(word)),
    }
}

/// The only character of a word.
pub open spec fn char_in(word: Seq<char>, line: int) -> Result<char, Fault> {
    if word.len() == 1 {
        Ok(word[0])
    } else {
        syntax(line, "expected single status character, got "@ + debug_quoted(word))
    }
}

pub open spec fn phase_in(word: Seq<char>, line: int) -> Result<Phase, Fault> {
    match char_in(word, line) {
        Ok(c) => match Phase::spec_from_char(c) {
            Some(p) => Ok(p),
            None => syntax(line, "unknown current_status "@ + debug_quoted(word)),
        },
        Err(f) => Err(f),
    }
}

pub open spec fn status_in_word(word: Seq<char>, line: int) -> Result<SectorStatus, Fault> {
    match char_in(word, line) {
        Ok(c) => match SectorStatus::spec_from_char(c) {
            Some(s) => Ok(s),
            None => syntax(line, "unknown extent status "@ + debug_quoted(word)),
        },
        Err(f) => Err(f),
    }
}

/// What the words of a status line tell; without a pass it is the first. A
/// pass is a 32-bit number.
pub open spec fn status_fields(w: Seq<Seq<char>>, line: int) -> Result<Status, Fault> {
    if w.len() < 2 || w.len() > 3 {
        syntax(line, "status line must be: current_pos current_status [current_pass]"@)
    } else {
        match (number_in(w[0], line), phase_in(w[1], line)) {
            (Err(f), _) => Err(f),
            (Ok(_), Err(f)) => Err(f),
            (Ok(pos), Ok(phase)) => if w.len() == 2 {
                Ok((pos, phase, 1))
            } else {
                match number_in(w[2], line) {
                    Ok(pass) => Ok((pos, phase, pass % 0x1_0000_0000)),
                    Err(f) => Err(f),
                }
            },
        }
    }
}

/// What the words of an extent line tell: start, length and status.
pub open spec fn extent_fields(w: Seq<Seq<char>>, line: int) -> Result<
    (int, int, SectorStatus),
    Fault,
> {
    if w.len() != 3 {
        syntax(line, "extent line must be: pos size status"@)
    } else {
        match (number_in(w[0], line), number_in(w[1], line), status_in_word(w[2], line)) {
            (Err(f), _, _) => Err(f),
            (Ok(_), Err(f), _) => Err(f),
            (Ok(_), Ok(_), Err(f)) => Err(f),
            (Ok(start), Ok(len), Ok(status)) => Ok((start, len, status)),
        }
    }
}

/// A blank line or a comment.
pub open spec fn ignorable(line: Seq<char>) -> bool {
    words(line).len() == 0 || words(line)[0][0] == '#'
}

/// `draft` with one more line, the `number`-th.
pub open spec fn with_line(draft: Draft, line: Seq<char>, number: int) -> Result<Draft, Fault> {
    let w = words(line);
    if ignorable(line) {
        Ok(draft)
    } else if draft.status is None {
        match status_fields(w, number) {
            Ok(s) => Ok(Draft { status: Some(s), bytes: draft.bytes }),
            Err(f) => Err(f),
        }
    } else {
        match extent_fields(w, number) {
            Ok((start, len, status)) => if start != draft.bytes.len() {
                Err(Fault::NotContiguous { line: number })
            } else if start + len > u64::MAX {
                Err(Fault::TooLong)
            } else {
                Ok(Draft { status: draft.status, bytes: draft.bytes + filled(len, status) })
            },
            Err(f) => Err(f),
        }
    }
}

/// What the lines of a mapfile tell; the first fault counts.
pub open spec fn read_lines(lines: Seq<Seq<char>>) -> Result<Draft, Fault>
    decreases lines.len(),
{
    if lines.len() == 0 {
        Ok(Draft { status: None, bytes: Seq::empty() })
    } else {
        match read_lines(lines.drop_last()) {
            Ok(draft) => with_line(draft, lines.last(), lines.len() as int),
            Err(f) => Err(f),
        }
    }
}

/// What a mapfile tells: the status line and the status of every byte.
pub open spec fn parsed(text: Seq<char>) -> Result<(Status, Seq<SectorStatus>), Fault> {
    match read_lines(split_on(text, '\n')) {
        Ok(draft) => match draft.status {
            Some(s) => Ok((s, draft.bytes)),
            None => Err(Fault::Empty),
        },
        Err(f) => Err(f),
    }
}

/// `m` is what a mapfile told.
pub open spec fn is_map(m: RescueMap, told: (Status, Seq<SectorStatus>)) -> bool {
    &&& m.wf()
    &&& m@ == told.1
    &&& m.current_pos == told.0.0
    &&& m.current_phase == told.0.1
    &&& m.pass == told.0.2
}

/// `e` reports `f`.
pub open spec fn reports(e: MapParseError, f: Fault) -> bool {
    match e {
        MapParseError::Syntax { line, msg } => f matches Fault::Syntax { line: l, msg: m } && l
            == line && m == msg@,
        MapParseError::Empty => f is Empty,
        MapParseError::NotContiguous { line } => f matches Fault::NotContiguous { line: l } && l
            == line,
    }
}

fn syntax_error(line: usize, what: &'static str, word: &[char]) -> (e: MapParseError)
    ensures
        reports(e, (Fault::Syntax { line: line as int, msg: what@ + debug_quoted(word@) })),
{
    let mut msg: String = String::new();
    push_text(&mut msg, what);
    assert(msg@ =~= what@);
    let w: String = to_text(word);
    push_text(&mut msg, quoted(w.as_str()).as_str());
    MapParseError::Syntax { line, msg }
}

fn parse_hex(word: &[char], line: usize) -> (r: Result<u64, MapParseError>)
    ensures
        match r {
            Ok(v) => number_in(word@, line as int) == Ok::<int, Fault>(v as int),
            Err(e) => number_in(word@, line as int) matches Err(f) && reports(e, f),
        },
{
    match read_number(word) {
        Ok(v) => Ok(v),
        Err(_) => Err(syntax_error(line, "invalid number ", word)),
    }
}

fn single_char(word: &[char], line: usize) -> (r: Result<char, MapParseError>)
    ensures
        match r {
            Ok(c) => char_in(word@, line as int) == Ok::<char, Fault>(c),
            Err(e) => char_in(word@, line as int) matches Err(f) && reports(e, f),
        },
{
    if word.len() == 1 {
        Ok(word[0])
    } else {
        Err(syntax_error(line, "expected single status character, got ", word))
    }
}

fn parse_phase(word: &[char], line: usize) -> (r: Result<Phase, MapParseError>)
    ensures
        match r {
            Ok(p) => phase_in(word@, line as int) == Ok::<Phase, Fault>(p),
            Err(e) => phase_in(word@, line as int) matches Err(f) && reports(e, f),
        },
{
    match single_char(word, line) {
        Ok(c) => match Phase::from_char(c) {
            Some(p) => Ok(p),
            None => Err(syntax_error(line, "unknown current_status ", word)),
        },
        Err(e) => Err(e),
    }
}

fn parse_extent_status(word: &[char], line: usize) -> (r: Result<SectorStatus, MapParseError>)
    ensures
        match r {
            Ok(s) => status_in_word(word@, line as int) == Ok::<SectorStatus, Fault>(s),
            Err(e) => status_in_word(word@, line as int) matches Err(f) && reports(e, f),
        },
{
    match single_char(word, line) {
        Ok(c) => match SectorStatus::from_char(c) {
            Some(s) => Ok(s),
            None => Err(syntax_error(line, "unknown extent status ", word)),
        },
        Err(e) => Err(e),
    }
}

fn parse_status_line(w: &Vec<Vec<char>>, line: usize) -> (r: Result<
    (u64, Phase, u32),
    MapParseError,
>)
    ensures
        match r {
            Ok((pos, phase, pass)) => status_fields(views(w@), line as int) == Ok::<Status, Fault>(
                (pos as int, phase, pass as int),
            ),
            Err(e) => status_fields(views(w@), line as int) matches Err(f) && reports(e, f),
        },
{
    let n: usize = w.len();
    if n < 2 || n > 3 {
        return Err(
            MapParseError::Syntax {
                line,
                msg: "status line must be: current_pos current_status [current_pass]".to_owned(),
            },
        );
    }
    let pos: u64 = match parse_hex(w[0].as_slice(), line) {
        Ok(v) => v,
        Err(e) => {
            return Err(e);
        },
    };
    let phase: Phase = match parse_phase(w[1].as_slice(), line) {
        Ok(p) => p,
        Err(e) => {
            return Err(e);
        },
    };
    let pass: u32 = if n == 3 {
        match parse_hex(w[2].as_slice(), line) {
            Ok(v) => (v % 0x1_0000_0000) as u32,
            Err(e) => {
                return Err(e);
            },
        }
    } else {
        1
    };
    Ok((pos, phase, pass))
}

fn parse_extent_line(w: &Vec<Vec<char>>, line: usize) -> (r: Result<
    (u64, u64, SectorStatus),
    MapParseError,
>)
    ensures
        match r {
            Ok((start, len, status)) => extent_fields(views(w@), line as int) == Ok::<
                (int, int, SectorStatus),
                Fault,
            >((start as int, len as int, status)),
            Err(e) => extent_fields(views(w@), line as int) matches Err(f) && reports(e, f),
        },
{
    if w.len() != 3 {
        return Err(
            MapParseError::Syntax { line, msg: "extent line must be: pos size status".to_owned() },
        );
    }
    let start: u64 = match parse_hex(w[0].as_slice(), line) {
        Ok(v) => v,
        Err(e) => {
            return Err(e);
        },
    };
    let len: u64 = match parse_hex(w[1].as_slice(), line) {
        Ok(v) => v,
        Err(e) => {
            return Err(e);
        },
    };
    match parse_extent_status(w[2].as_slice(), line) {
        Ok(status) => Ok((start, len, status)),
        Err(e) => Err(e),
    }
}

/// The bytes that a list of extents stands for.
pub open spec fn bytes_of(extents: Seq<Extent>) -> Seq<SectorStatus>
    decreases extents.len(),
{
    if extents.len() == 0 {
        Seq::empty()
    } else {
        bytes_of(extents.drop_last()) + filled(extents.last().len as int, extents.last().status)
    }
}

/// Each extent starts where the ones before end.
spec fn in_sequence(extents: Seq<Extent>) -> bool {
    forall|k: int|
        0 <= k < extents.len() ==> (#[trigger] extents[k]).start == bytes_of(extents.take(k)).len()
}

/// What is read of the lines of a mapfile.
struct Table {
    status: Option<(u64, Phase, u32)>,
    extents: Vec<Extent>,
    size: u64,
}

impl Table {
    spec fn draft(&self) -> Draft {
        Draft {
            status: match self.status {
                Some((pos, phase, pass)) => Some((pos as int, phase, pass as int)),
                None => None,
            },
            bytes: bytes_of(self.extents@),
        }
    }

    spec fn wf(&self) -> bool {
        &&& in_sequence(self.extents@)
        &&& bytes_of(self.extents@).len() == self.size
    }
}

/// What is wrong with the lines of a mapfile.
enum Flaw {
    Error(MapParseError),
    TooLong,
}

spec fn is_flaw(flaw: Flaw, f: Fault) -> bool {
    match flaw {
        Flaw::Error(e) => reports(e, f),
        Flaw::TooLong => f is TooLong,
    }
}

/// The first fault in some lines is the fault of all of them.
proof fn lemma_first_fault(lines: Seq<Seq<char>>, k: int)
    requires
        0 <= k <= lines.len(),
        read_lines(lines.take(k)) is Err,
    ensures
        read_lines(lines) == read_lines(lines.take(k)),
    decreases lines.len(),
{
    if k == lines.len() {
        assert(lines.take(k) =~= lines);
    } else {
        assert(lines.drop_last().take(k) =~= lines.take(k));
        lemma_first_fault(lines.drop_last(), k);
    }
}

/// Take in one line.
fn add_line(table: &mut Table, line: &[char], number: usize) -> (r: Result<(), Flaw>)
    requires
        old(table).wf(),
    ensures
        match r {
            Ok(()) => final(table).wf() && with_line(old(table).draft(), line@, number as int)
                == Ok::<Draft, Fault>(final(table).draft()),
            Err(flaw) => with_line(old(table).draft(), line@, number as int) matches Err(f)
                && is_flaw(flaw, f),
        },
{
    let w: Vec<Vec<char>> = split_words(line);
    proof {
        lemma_words_not_empty(line@);
    }
    if w.len() == 0 {
        return Ok(());
    }
    assert(views(w@)[0] == w@[0]@);
    if w[0][0] == '#' {
        return Ok(());
    }
    if table.status.is_none() {
        match parse_status_line(&w, number) {
            Ok(s) => {
                table.status = Some(s);
            },
            Err(e) => {
                return Err(Flaw::Error(e));
            },
        }
        return Ok(());
    }
    let (start, len, status): (u64, u64, SectorStatus) = match parse_extent_line(&w, number) {
        Ok(x) => x,
        Err(e) => {
            return Err(Flaw::Error(e));
        },
    };
    if start != table.size {
        return Err(Flaw::Error(MapParseError::NotContiguous { line: number }));
    }
    if len > u64::MAX - start {
        return Err(Flaw::TooLong);
    }
    if len == 0 {
        assert(table.draft().bytes + filled(0, status) =~= table.draft().bytes);
        return Ok(());
    }
    let ghost before = table.extents@;
    table.size = start + len;
    table.extents.push(Extent { start, len, status });
    proof {
        let after = table.extents@;
        assert(after.drop_last() =~= before);
        assert forall|k: int| 0 <= k < after.len() implies (#[trigger] after[k]).start == bytes_of(
            after.take(k),
        ).len() by {
            if k < before.len() {
                assert(after.take(k) =~= before.take(k));
                assert(after[k] == before[k]);
            } else {
                assert(after.take(k) =~= before);
            }
        }
    }
    Ok(())
}

/// Take in all lines.
fn read_table(lines: &Vec<Vec<char>>) -> (r: Result<Table, Flaw>)
    ensures
        match r {
            Ok(t) => t.wf() && read_lines(views(lines@)) == Ok::<Draft, Fault>(t.draft()),
            Err(flaw) => read_lines(views(lines@)) matches Err(f) && is_flaw(flaw, f),
        },
{
    let ghost all = views(lines@);
    let n: usize = lines.len();
    let mut table = Table { status: None, extents: Vec::new(), size: 0 };
    let mut i: usize = 0;
    assert(all.take(0) =~= Seq::empty());
    assert(table.draft().bytes =~= Seq::empty());
    while i < n
        invariant
            i <= n,
            n == lines@.len(),
            all == views(lines@),
            table.wf(),
            read_lines(all.take(i as int)) == Ok::<Draft, Fault>(table.draft()),
        decreases n - i,
    {
        proof {
            assert(all.take(i + 1).drop_last() =~= all.take(i as int));
            assert(all.take(i + 1).last() == lines@[i as int]@);
        }
        match add_line(&mut table, lines[i].as_slice(), i + 1) {
            Ok(()) => {},
            Err(flaw) => {
                proof {
                    lemma_first_fault(all, i + 1);
                }
                return Err(flaw);
            },
        }
        i = i + 1;
    }
    assert(all.take(n as int) =~= all);
    Ok(table)
}

/// The bytes of some of the extents are the first bytes of all of them.
proof fn lemma_bytes_of_prefix(extents: Seq<Extent>, k: int)
    requires
        0 <= k <= extents.len(),
    ensures
        bytes_of(extents.take(k)).len() <= bytes_of(extents).len(),
        forall|i: int|
            0 <= i < bytes_of(extents.take(k)).len() ==> #[trigger] bytes_of(extents)[i]
                == bytes_of(extents.take(k))[i],
    decreases extents.len(),
{
    if k == extents.len() {
        assert(extents.take(k) =~= extents);
    } else {
        assert(extents.drop_last().take(k) =~= extents.take(k));
        lemma_bytes_of_prefix(extents.drop_last(), k);
    }
}

/// The map of what was read. Built through marking, so that it is coalesced
/// even for sloppy input (adjacent lines with the same status).
fn build(table: Table) -> (r: Result<RescueMap, MapParseError>)
    requires
        table.wf(),
    ensures
        match r {
            Ok(m) => table.draft().status matches Some(s) && is_map(m, (s, table.draft().bytes)),
            Err(e) => e is Empty && table.draft().status is None,
        },
{
    let (pos, phase, pass): (u64, Phase, u32) = match table.status {
        Some(s) => s,
        None => {
            return Err(MapParseError::Empty);
        },
    };
    let ghost all = table.extents@;
    let mut map = RescueMap::new_untried(table.size);
    let n: usize = table.extents.len();
    let mut k: usize = 0;
    while k < n
        invariant
            k <= n,
            n == all.len(),
            all == table.extents@,
            table.wf(),
            map.wf(),
            map.size == table.size,
            bytes_of(all.take(k as int)).len() <= map.size,
            forall|i: int|
                0 <= i < bytes_of(all.take(k as int)).len() ==> #[trigger] map@[i] == bytes_of(
                    all.take(k as int),
                )[i],
        decreases n - k,
    {
        let e: Extent = table.extents[k];
        proof {
            assert(all.take(k + 1).drop_last() =~= all.take(k as int));
            assert(all.take(k + 1).last() == e);
            assert(e == all[k as int]);
            lemma_bytes_of_prefix(all, k + 1);
        }
        map.mark(e.start, e.len, e.status);
        k = k + 1;
    }
    assert(all.take(n as int) =~= all);
    let ghost marked_map = map;
    assert(map@ =~= bytes_of(all));
    map.current_pos = pos;
    map.current_phase = phase;
    map.pass = pass;
    assert(map@ =~= marked_map@);
    Ok(map)
}

/// Parse a mapfile. The map size is derived from the end of the last extent.
pub fn parse(text: &str) -> (r: Result<RescueMap, MapParseError>)
    requires
        !(parsed(text@) matches Err(f) && f is TooLong),
    ensures
        match r {
            Ok(m) => parsed(text@) matches Ok(told) && is_map(m, told),
            Err(e) => parsed(text@) matches Err(f) && reports(e, f),
        },
{
    let chars: Vec<char> = chars_of(text);
    let lines: Vec<Vec<char>> = split(&chars, '\n');
    match read_table(&lines) {
        Ok(table) => build(table),
        Err(Flaw::Error(e)) => Err(e),
        Err(Flaw::TooLong) => {
            proof {
                assert(false);
            }
            Err(MapParseError::Empty)
        },
    }
}

/// Whether the first fault of a mapfile, if it has one, is not an extent
/// that ends behind the largest 64-bit number: what [`parse`] takes.
pub fn fits(text: &str) -> (r: bool)
    ensures
        r == !(parsed(text@) matches Err(f) && f is TooLong),
{
    let chars: Vec<char> = chars_of(text);
    let lines: Vec<Vec<char>> = split(&chars, '\n');
    match read_table(&lines) {
        Err(Flaw::TooLong) => false,
        _ => true,
    }
}

/// The status line of a map.
pub open spec fn status_line(m: RescueMap) -> Seq<char> {
    seq!['0', 'x'] + hex_padded(m.current_pos as int, 8) + "     "@ + seq![
        m.current_phase.spec_char(),
    ] + "               "@ + digits_of(m.pass as int, 10)
}

/// The line of an extent.
pub open spec fn extent_line(e: Extent) -> Seq<char> {
    seq!['0', 'x'] + hex_padded(e.start as int, 8) + "  "@ + (seq!['0', 'x'] + hex_padded(
        e.len as int,
        8,
    )) + "  "@ + seq![e.status.spec_char()]
}

/// `text` with one more line.
pub open spec fn with_text_line(text: Seq<char>, line: Seq<char>) -> Seq<char> {
    text + line + seq!['\n']
}

/// The lines before the extents.
pub open spec fn head_text(m: RescueMap, command_line: Seq<char>) -> Seq<char> {
    let created = with_text_line(
        Seq::empty(),
        "# Mapfile. Created by file-rescue version 0.1.0"@,
    );
    let command = if command_line.len() == 0 {
        created
    } else {
        with_text_line(created, "# Command line: "@ + command_line)
    };
    let columns = with_text_line(command, "# current_pos  current_status  current_pass"@);
    let status = with_text_line(columns, status_line(m));
    with_text_line(status, "#      pos        size  status"@)
}

/// `text` with the lines of some extents.
pub open spec fn with_extents(text: Seq<char>, extents: Seq<Extent>) -> Seq<char>
    decreases extents.len(),
{
    if extents.len() == 0 {
        text
    } else {
        with_text_line(with_extents(text, extents.drop_last()), extent_line(extents.last()))
    }
}

/// The mapfile of a map.
pub open spec fn serialized(m: RescueMap, command_line: Seq<char>) -> Seq<char> {
    with_extents(head_text(m, command_line), m.runs())
}

fn push_line(out: &mut String, line: &str)
    ensures
        final(out)@ == with_text_line(old(out)@, line@),
{
    push_text(out, line);
    out.push('\n');
    assert(out@ =~= with_text_line(old(out)@, line@));
}

/// The text of a status line.
fn status_text(map: &RescueMap) -> (s: String)
    ensures
        s@ == status_line(*map),
{
    let mut s: String = String::new();
    s.push('0');
    s.push('x');
    push_chars(&mut s, &write_hex(map.current_pos, 8));
    push_text(&mut s, "     ");
    s.push(map.current_phase.as_char());
    push_text(&mut s, "               ");
    push_chars(&mut s, &write_digits(map.pass as u64, 10));
    assert(s@ =~= status_line(*map));
    s
}

/// The text of an extent line.
fn extent_text(e: &Extent) -> (s: String)
    ensures
        s@ == extent_line(*e),
{
    let mut s: String = String::new();
    s.push('0');
    s.push('x');
    push_chars(&mut s, &write_hex(e.start, 8));
    push_text(&mut s, "  ");
    s.push('0');
    s.push('x');
    push_chars(&mut s, &write_hex(e.len, 8));
    push_text(&mut s, "  ");
    s.push(e.status.as_char());
    assert(s@ =~= extent_line(*e));
    s
}

/// The mapfile of a map, with the command line that it was made by.
pub fn serialize(map: &RescueMap, command_line: &str) -> (s: String)
    ensures
        s@ == serialized(*map, command_line@),
{
    let mut out: String = String::new();
    push_line(&mut out, "# Mapfile. Created by file-rescue version 0.1.0");
    if !command_line.is_empty() {
        let mut line: String = String::new();
        push_text(&mut line, "# Command line: ");
        push_text(&mut line, command_line);
        assert(line@ =~= "# Command line: "@ + command_line@);
        push_line(&mut out, line.as_str());
    }
    push_line(&mut out, "# current_pos  current_status  current_pass");
    push_line(&mut out, status_text(map).as_str());
    push_line(&mut out, "#      pos        size  status");
    let ghost head = out@;
    let extents: &[Extent] = map.extents();
    let n: usize = extents.len();
    let mut i: usize = 0;
    assert(map.runs().take(0) =~= Seq::empty());
    while i < n
        invariant
            i <= n,
            n == extents@.len(),
            extents@ == map.runs(),
            out@ == with_extents(head, map.runs().take(i as int)),
        decreases n - i,
    {
        proof {
            assert(map.runs().take(i + 1).drop_last() =~= map.runs().take(i as int));
        }
        push_line(&mut out, extent_text(&extents[i]).as_str());
        i = i + 1;
    }
    assert(map.runs().take(n as int) =~= map.runs());
    out
}

/// The message of an error.
impl MapParseError {
    pub open spec fn spec_message(&self) -> Seq<char> {
        match self {
            MapParseError::Syntax { line, msg } => "line "@ + digits_of(*line as int, 10) + ": "@
                + msg@,
            MapParseError::Empty => "mapfile has no status line"@,
            MapParseError::NotContiguous { line } => "extents are not contiguous at line "@
                + digits_of(*line as int, 10),
        }
    }

    pub fn message(&self) -> (s: String)
        ensures
            s@ == self.spec_message(),
    {
        let mut s: String = String::new();
        match self {
            MapParseError::Syntax { line, msg } => {
                push_text(&mut s, "line ");
                push_chars(&mut s, &write_digits(*line as u64, 10));
                push_text(&mut s, ": ");
                push_text(&mut s, msg.as_str());
            },
            MapParseError::Empty => {
                push_text(&mut s, "mapfile has no status line");
            },
            MapParseError::NotContiguous { line } => {
                push_text(&mut s, "extents are not contiguous at line ");
                push_chars(&mut s, &write_digits(*line as u64, 10));
            },
        }
        assert(s@ =~= self.spec_message());
        s
    }
}

/// A character of a number or a status.
spec fn is_mark(c: char) -> bool {
    '0' <= c <= '9' || 'A' <= c <= 'F' || c == 'x' || c == '?' || c == '*' || c == '/' || c == '-'
        || c == '+'
}

spec fn all_marks(s: Seq<char>) -> bool {
    s.len() > 0 && forall|i: int| 0 <= i < s.len() ==> is_mark(#[trigger] s[i])
}

/// A written number is a word that stands for the number.
proof fn lemma_number_word(n: int)
    requires
        0 <= n <= u64::MAX,
    ensures
        all_marks(seq!['0', 'x'] + hex_padded(n, 8)),
        number_value(seq!['0', 'x'] + hex_padded(n, 8)) == Ok::<
            int,
            crate::text::number::NumberError,
        >(n),
{
    lemma_hex_read_back(n, 8);
    let s = seq!['0', 'x'] + hex_padded(n, 8);
    assert forall|i: int| 0 <= i < s.len() implies is_mark(#[trigger] s[i]) by {
        if i >= 2 {
            assert(s[i] == hex_padded(n, 8)[i - 2]);
        }
    }
}

/// A line whose first character is `#` is a comment.
proof fn lemma_comment(line: Seq<char>)
    requires
        line.len() > 0,
        line[0] == '#',
    ensures
        ignorable(line),
{
    lemma_first_char_in_word(line);
}

/// Lines that are ignorable tell nothing.
proof fn lemma_ignorable_lines(lines: Seq<Seq<char>>, more: Seq<Seq<char>>)
    requires
        forall|i: int| 0 <= i < more.len() ==> ignorable(#[trigger] more[i]),
        read_lines(lines) is Ok,
    ensures
        read_lines(lines + more) == read_lines(lines),
    decreases more.len(),
{
    if more.len() == 0 {
        assert(lines + more =~= lines);
    } else {
        let all = lines + more;
        assert forall|i: int| 0 <= i < more.drop_last().len() implies ignorable(
            #[trigger] more.drop_last()[i],
        ) by {
            assert(more.drop_last()[i] == more[i]);
        }
        assert(all.drop_last() =~= lines + more.drop_last());
        lemma_ignorable_lines(lines, more.drop_last());
        assert(all.last() == more[more.len() - 1]);
    }
}

/// The status line of a map tells its status.
proof fn lemma_status_line(m: RescueMap, number: int)
    ensures
        !ignorable(status_line(m)),
        status_fields(words(status_line(m)), number) == Ok::<Status, Fault>(
            (m.current_pos as int, m.current_phase, m.pass as int),
        ),
        forall|i: int|
            0 <= i < status_line(m).len() ==> #[trigger] status_line(m)[i] != '\n',
{
    let a = seq!['0', 'x'] + hex_padded(m.current_pos as int, 8);
    let b = seq![m.current_phase.spec_char()];
    let c = digits_of(m.pass as int, 10);
    lemma_number_word(m.current_pos as int);
    lemma_decimal_read_back(m.pass as int);
    reveal_strlit("     ");
    reveal_strlit("               ");
    assert(all_marks(b));
    assert(all_marks(c));
    assert(status_line(m) =~= a + "     "@ + b + "               "@ + c);
    lemma_three_words(a, "     "@, b, "               "@, c);
    assert(words(status_line(m))[0] == a);
    assert(a[0] == '0');
    assert(m.pass as int % 0x1_0000_0000 == m.pass as int);
    lemma_marks_line(a, "     "@, b, "               "@, c);
}

/// A line of marks and blanks has no line end.
proof fn lemma_marks_line(
    a: Seq<char>,
    s: Seq<char>,
    b: Seq<char>,
    t: Seq<char>,
    c: Seq<char>,
)
    requires
        all_marks(a),
        all_marks(b),
        all_marks(c),
        forall|i: int| 0 <= i < s.len() ==> #[trigger] s[i] == ' ',
        forall|i: int| 0 <= i < t.len() ==> #[trigger] t[i] == ' ',
    ensures
        forall|i: int|
            0 <= i < (a + s + b + t + c).len() ==> #[trigger] (a + s + b + t + c)[i] != '\n',
{
    let all = a + s + b + t + c;
    assert forall|i: int| 0 <= i < all.len() implies #[trigger] all[i] != '\n' by {
        let n1 = a.len() as int;
        let n2 = n1 + s.len();
        let n3 = n2 + b.len();
        let n4 = n3 + t.len();
        if i < n1 {
            assert(is_mark(a[i]));
        } else if i < n2 {
            assert(s[i - n1] == ' ');
        } else if i < n3 {
            assert(is_mark(b[i - n2]));
        } else if i < n4 {
            assert(t[i - n3] == ' ');
        } else {
            assert(is_mark(c[i - n4]));
        }
    }
}

/// The line of an extent tells the extent.
proof fn lemma_extent_line(e: Extent, number: int)
    ensures
        !ignorable(extent_line(e)),
        extent_fields(words(extent_line(e)), number) == Ok::<(int, int, SectorStatus), Fault>(
            (e.start as int, e.len as int, e.status),
        ),
        forall|i: int| 0 <= i < extent_line(e).len() ==> #[trigger] extent_line(e)[i] != '\n',
{
    let a = seq!['0', 'x'] + hex_padded(e.start as int, 8);
    let b = seq!['0', 'x'] + hex_padded(e.len as int, 8);
    let c = seq![e.status.spec_char()];
    lemma_number_word(e.start as int);
    lemma_number_word(e.len as int);
    reveal_strlit("  ");
    assert(all_marks(c));
    assert(extent_line(e) =~= a + "  "@ + b + "  "@ + c);
    lemma_three_words(a, "  "@, b, "  "@, c);
    assert(words(extent_line(e))[0] == a);
    assert(a[0] == '0');
    lemma_marks_line(a, "  "@, b, "  "@, c);
}

/// One more line of text is one more line, where the text ended with one.
proof fn lemma_line_added(text: Seq<char>, lines: Seq<Seq<char>>, line: Seq<char>)
    requires
        split_on(text, '\n') == lines.push(Seq::empty()),
        forall|i: int| 0 <= i < line.len() ==> #[trigger] line[i] != '\n',
    ensures
        split_on(with_text_line(text, line), '\n') == lines.push(line).push(Seq::empty()),
{
    lemma_split_line(text, line, '\n');
    assert(lines.push(Seq::empty()).drop_last() =~= lines);
    assert(Seq::<char>::empty() + line =~= line);
    assert(with_text_line(text, line).drop_last() =~= text + line);
}

/// The lines of `text` tell `draft`.
spec fn tells(text: Seq<char>, lines: Seq<Seq<char>>, draft: Draft) -> bool {
    &&& split_on(text, '\n') == lines.push(Seq::empty())
    &&& read_lines(lines) == Ok::<Draft, Fault>(draft)
}

/// A comment tells nothing.
proof fn lemma_comment_added(
    text: Seq<char>,
    lines: Seq<Seq<char>>,
    draft: Draft,
    line: Seq<char>,
)
    requires
        tells(text, lines, draft),
        line.len() > 0,
        line[0] == '#',
        forall|i: int| 0 <= i < line.len() ==> #[trigger] line[i] != '\n',
    ensures
        tells(with_text_line(text, line), lines.push(line), draft),
{
    lemma_line_added(text, lines, line);
    lemma_comment(line);
    assert(lines.push(line).drop_last() =~= lines);
}

/// Nor does the command line, if it looks like comments.
proof fn lemma_command_added(
    text: Seq<char>,
    lines: Seq<Seq<char>>,
    draft: Draft,
    prefix: Seq<char>,
    command_line: Seq<char>,
) -> (all: Seq<Seq<char>>)
    requires
        tells(text, lines, draft),
        prefix.len() > 0,
        prefix[0] == '#',
        forall|i: int| 0 <= i < prefix.len() ==> #[trigger] prefix[i] != '\n',
        forall|k: int|
            1 <= k < split_on(command_line, '\n').len() ==> ignorable(
                #[trigger] split_on(command_line, '\n')[k],
            ),
    ensures
        tells(with_text_line(text, prefix + command_line), all, draft),
{
    let line = prefix + command_line;
    let pieces = split_on(command_line, '\n');
    let more = split_on(line, '\n');
    lemma_split_prefix(prefix, command_line, '\n');
    lemma_split_append(text, line, '\n');
    let all = lines + more;
    let empty = Seq::<char>::empty();
    assert(lines.push(empty).drop_last() =~= lines);
    assert(empty + more[0] =~= more[0]);
    assert(split_on(text + line, '\n') =~= all);
    assert(with_text_line(text, line).drop_last() =~= text + line);
    assert forall|i: int| 0 <= i < more.len() implies ignorable(#[trigger] more[i]) by {
        if i == 0 {
            assert(more[0][0] == '#');
            lemma_comment(more[0]);
        } else {
            assert(more[i] == pieces[i]);
        }
    }
    lemma_ignorable_lines(lines, more);
    all
}

/// The status line tells the status.
proof fn lemma_status_added(
    text: Seq<char>,
    lines: Seq<Seq<char>>,
    bytes: Seq<SectorStatus>,
    m: RescueMap,
)
    requires
        tells(text, lines, (Draft { status: None, bytes })),
    ensures
        tells(
            with_text_line(text, status_line(m)),
            lines.push(status_line(m)),
            (Draft {
                status: Some((m.current_pos as int, m.current_phase, m.pass as int)),
                bytes,
            }),
        ),
{
    let all = lines.push(status_line(m));
    lemma_status_line(m, all.len() as int);
    lemma_line_added(text, lines, status_line(m));
    assert(all.drop_last() =~= lines);
}

/// The lines before the extents tell the status of the map.
proof fn lemma_head_text(m: RescueMap, command_line: Seq<char>) -> (lines: Seq<Seq<char>>)
    requires
        forall|k: int|
            1 <= k < split_on(command_line, '\n').len() ==> ignorable(
                #[trigger] split_on(command_line, '\n')[k],
            ),
    ensures
        tells(
            head_text(m, command_line),
            lines,
            (Draft {
                status: Some((m.current_pos as int, m.current_phase, m.pass as int)),
                bytes: Seq::empty(),
            }),
        ),
{
    let bytes = Seq::<SectorStatus>::empty();
    let empty = Draft { status: None, bytes };
    let none = Seq::<Seq<char>>::empty();
    let created = "# Mapfile. Created by file-rescue version 0.1.0"@;
    let prefix = "# Command line: "@;
    let columns = "# current_pos  current_status  current_pass"@;
    let header = "#      pos        size  status"@;
    reveal_strlit("# Mapfile. Created by file-rescue version 0.1.0");
    reveal_strlit("# Command line: ");
    reveal_strlit("# current_pos  current_status  current_pass");
    reveal_strlit("#      pos        size  status");
    assert(split_on(Seq::empty(), '\n') =~= none.push(Seq::empty()));
    assert(tells(Seq::empty(), none, empty));
    lemma_comment_added(Seq::empty(), none, empty, created);
    let t1 = with_text_line(Seq::empty(), created);
    let l1 = none.push(created);
    let (t2, l2) = if command_line.len() == 0 {
        (t1, l1)
    } else {
        (
            with_text_line(t1, prefix + command_line),
            lemma_command_added(t1, l1, empty, prefix, command_line),
        )
    };
    lemma_comment_added(t2, l2, empty, columns);
    let t3 = with_text_line(t2, columns);
    let l3 = l2.push(columns);
    lemma_status_added(t3, l3, bytes, m);
    let t4 = with_text_line(t3, status_line(m));
    let l4 = l3.push(status_line(m));
    let status = (m.current_pos as int, m.current_phase, m.pass as int);
    lemma_comment_added(t4, l4, Draft { status: Some(status), bytes }, header);
    l4.push(header)
}

/// The lines of extents tell their bytes.
proof fn lemma_extent_lines(
    text: Seq<char>,
    lines: Seq<Seq<char>>,
    status: Status,
    extents: Seq<Extent>,
) -> (all: Seq<Seq<char>>)
    requires
        tells(text, lines, (Draft { status: Some(status), bytes: Seq::empty() })),
        super::is_run_list(extents),
    ensures
        tells(
            with_extents(text, extents),
            all,
            (Draft { status: Some(status), bytes: bytes_of(extents) }),
        ),
        bytes_of(extents).len() == super::runs_end(extents),
    decreases extents.len(),
{
    if extents.len() == 0 {
        lines
    } else {
        super::lemma_run_prefix(extents);
        let before = lemma_extent_lines(text, lines, status, extents.drop_last());
        let e = extents.last();
        let line = extent_line(e);
        let all = before.push(line);
        lemma_extent_line(e, all.len() as int);
        lemma_line_added(with_extents(text, extents.drop_last()), before, line);
        assert(all.drop_last() =~= before);
        all
    }
}

/// The bytes of the extents of a map are the bytes of the map.
proof fn lemma_bytes_of_runs(s: Seq<Extent>, i: int)
    requires
        super::is_run_list(s),
        0 <= i < super::runs_end(s),
    ensures
        bytes_of(s).len() == super::runs_end(s),
        bytes_of(s)[i] == super::status_in(s, i),
    decreases s.len(),
{
    super::lemma_run_prefix(s);
    let t = s.drop_last();
    if t.len() == 0 {
        assert(bytes_of(t) =~= Seq::empty());
        assert(s.last().start == 0);
    } else {
        if i < s.last().start {
            lemma_bytes_of_runs(t, i);
        } else {
            lemma_bytes_of_runs(t, 0);
        }
    }
}

/// Reading a mapfile back gives the map: position, phase, pass and the
/// status of every byte, and so the same extents. A command line that runs
/// over several lines must not look like map data.
pub proof fn lemma_round_trip(m: RescueMap, command_line: Seq<char>)
    requires
        m.wf(),
        forall|k: int|
            1 <= k < split_on(command_line, '\n').len() ==> ignorable(
                #[trigger] split_on(command_line, '\n')[k],
            ),
    ensures
        parsed(serialized(m, command_line)) == Ok::<(Status, Seq<SectorStatus>), Fault>(
            ((m.current_pos as int, m.current_phase, m.pass as int), m@),
        ),
{
    let status = (m.current_pos as int, m.current_phase, m.pass as int);
    let head = lemma_head_text(m, command_line);
    let lines = lemma_extent_lines(head_text(m, command_line), head, status, m.runs());
    let all = lines.push(Seq::<char>::empty());
    assert(all.drop_last() =~= lines);
    assert(all.last() =~= Seq::empty());
    assert forall|i: int| 0 <= i < m.size implies bytes_of(m.runs())[i] == #[trigger] m@[i] by {
        lemma_bytes_of_runs(m.runs(), i);
    }
    assert(bytes_of(m.runs()) =~= m@);
    assert(ignorable(Seq::empty()));
}

} // verus!
