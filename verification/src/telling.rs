//! What lines and reports tell: the numbers in them are those of what they
//! are about.

use crate::carve::recovery::scan::{hex_number, is_hex};
use crate::carve::report::{escaped, json_object, text_line};
use crate::carve::Found;
use crate::image::{Outcome, Summary};
use crate::map::format::{extent_line, head_text, serialized, status_line, with_extents};
use crate::map::{runs_with, tally, Extent, Phase, RescueMap, SectorStatus};
use crate::text::laws::{decimal_number, lemma_decimal_digits, lemma_padding};
use crate::text::number::{digits_of, hex_padded, padded_left, padded_right};
use crate::ui::{
    counts_text, extracted_text, imaging_text, mismatch_text, overview_text, region_text,
    regions_text, resume_text, status_text, summary_text,
};
use vstd::prelude::*;

verus! {

/// `s` is the number `n` in decimal digits.
pub open spec fn is_count(s: Seq<char>, n: int) -> bool {
    &&& s.len() > 0
    &&& forall|i: int| 0 <= i < s.len() ==> '0' <= #[trigger] s[i] <= '9'
    &&& s[0] == '0' ==> s.len() == 1
    &&& decimal_number(s) == n
}

/// `s` is the number `n` in at least `width` upper-case hexadecimal digits.
pub open spec fn is_place(s: Seq<char>, n: int, width: int) -> bool {
    is_hex(s) && hex_number(s) == n && s.len() >= width && (s.len() > width && s.len() > 1
        ==> s[0] != '0')
}

/// `s` is `t` with blanks before it, up to a width.
pub open spec fn is_right_aligned(s: Seq<char>, t: Seq<char>, width: int) -> bool {
    &&& s.len() == if t.len() < width {
        width
    } else {
        t.len() as int
    }
    &&& s.skip(s.len() - t.len()) == t
    &&& forall|i: int| 0 <= i < s.len() - t.len() ==> #[trigger] s[i] == ' '
}

/// `s` is `t` with blanks behind it, up to a width.
pub open spec fn is_left_aligned(s: Seq<char>, t: Seq<char>, width: int) -> bool {
    &&& s.len() == if t.len() < width {
        width
    } else {
        t.len() as int
    }
    &&& s.take(t.len() as int) == t
    &&& forall|i: int| t.len() <= i < s.len() ==> #[trigger] s[i] == ' '
}

proof fn lemma_count(n: int)
    requires
        n >= 0,
    ensures
        is_count(digits_of(n, 10), n),
{
    lemma_decimal_digits(n);
}

proof fn lemma_place(n: int, width: int)
    requires
        n >= 0,
    ensures
        is_place(hex_padded(n, width), n, width),
{
    crate::carve::recovery::scan::lemma_hex_padded(n, width);
}

/// The line of a file tells its offset, its size, its format, its flags and its
/// name.
pub proof fn lemma_line_of_a_file(f: Found)
    requires
        f.offset >= 0,
        f.len >= 0,
    ensures
        exists|a: Seq<char>, b: Seq<char>, c: Seq<char>, d: Seq<char>, e: Seq<char>|
            #![trigger
                is_place(a, f.offset, 9),
                is_count(b, f.len),
                is_right_aligned(c, b, 11),
                is_left_aligned(d, f.format, 7),
                is_left_aligned(e, crate::carve::report::flags_of(f), 9)
            ]
            is_place(a, f.offset, 9) && is_count(b, f.len) && is_right_aligned(c, b, 11)
                && is_left_aligned(d, f.format, 7) && is_left_aligned(
                e,
                crate::carve::report::flags_of(f),
                9,
            ) && text_line(f) == "0x"@ + a + " "@ + c + " "@ + d + " "@ + e + " "@ + f.name
                + "\n"@,
{
    let b = digits_of(f.len, 10);
    let flags = crate::carve::report::flags_of(f);
    lemma_place(f.offset, 9);
    lemma_count(f.len);
    lemma_padding(b, ' ', 11);
    lemma_padding(f.format, ' ', 7);
    lemma_padding(flags, ' ', 9);
    assert(is_right_aligned(padded_left(b, ' ', 11), b, 11));
    assert(is_left_aligned(padded_right(f.format, 7), f.format, 7));
    assert(is_left_aligned(padded_right(flags, 9), flags, 9));
}

/// The object of a file tells its offset, its size, its format, whether it
/// is damaged or truncated, and its name.
pub proof fn lemma_object_of_a_file(f: Found)
    requires
        f.offset >= 0,
        f.len >= 0,
    ensures
        exists|a: Seq<char>, b: Seq<char>|
            #![trigger is_count(a, f.offset), is_count(b, f.len)]
            is_count(a, f.offset) && is_count(b, f.len) && json_object(f) == "  {\"offset\": "@ + a
                + ", \"size\": "@ + b + ", \"format\": \""@ + f.format + "\", \"damaged\": "@ + (
            if f.damaged {
                "true"@
            } else {
                "false"@
            }) + ", \"truncated\": "@ + (if f.truncated {
                "true"@
            } else {
                "false"@
            }) + ", \"file\": \""@ + escaped(f.name) + "\"}"@,
{
    lemma_count(f.offset);
    lemma_count(f.len);
}

/// The line of an extent tells where it is, how long it is, and its status.
pub proof fn lemma_line_of_an_extent(e: Extent)
    ensures
        exists|a: Seq<char>, b: Seq<char>|
            #![trigger is_place(a, e.start as int, 10), is_place(b, e.len as int, 10)]
            is_place(a, e.start as int, 10) && is_place(b, e.len as int, 10) && region_text(e)
                == "0x"@ + a + " 0x"@ + b + " "@ + seq![
                match e.status {
                    SectorStatus::NonTried => '?',
                    SectorStatus::NonTrimmed => '*',
                    SectorStatus::NonScraped => '/',
                    SectorStatus::Bad => '-',
                    SectorStatus::Rescued => '+',
                },
            ] + " "@ + name_of(e.status) + "\n"@,
{
    lemma_place(e.start as int, 10);
    lemma_place(e.len as int, 10);
}

/// The name of a status.
pub open spec fn name_of(st: SectorStatus) -> Seq<char> {
    match st {
        SectorStatus::NonTried => "non-tried"@,
        SectorStatus::NonTrimmed => "non-trimmed"@,
        SectorStatus::NonScraped => "non-scraped"@,
        SectorStatus::Bad => "bad-sector"@,
        SectorStatus::Rescued => "rescued"@,
    }
}

/// The name of what imaging is doing.
pub open spec fn name_of_phase(p: Phase) -> Seq<char> {
    match p {
        Phase::Copying => "copying"@,
        Phase::Trimming => "trimming"@,
        Phase::Scraping => "scraping"@,
        Phase::Retrying => "retrying"@,
        Phase::Finished => "finished"@,
    }
}

/// All extents are listed, or exactly those with the status that was asked
/// for, in their order.
pub proof fn lemma_extents_are_listed(extents: Seq<Extent>, st: SectorStatus)
    ensures
        regions_text(extents, Some(st)) == regions_text(
            extents.filter(|e: Extent| e.status == st),
            None,
        ),
        extents.len() > 0 ==> regions_text(extents, None) == regions_text(
            extents.drop_last(),
            None,
        ) + region_text(extents.last()),
        regions_text(Seq::empty(), None) == Seq::<char>::empty(),
    decreases extents.len(),
{
    reveal(Seq::filter);
    let pred = |e: Extent| e.status == st;
    if extents.len() > 0 {
        let before = extents.drop_last();
        lemma_extents_are_listed(before, st);
        let kept = extents.filter(pred);
        if extents.last().status == st {
            assert(kept == before.filter(pred).push(extents.last()));
            assert(kept.drop_last() =~= before.filter(pred));
        } else {
            assert(kept == before.filter(pred));
        }
    } else {
        assert(extents.filter(pred) =~= Seq::empty());
        assert(extents =~= Seq::empty());
    }
}

/// The line of a status tells how many bytes have it, and in how many
/// areas.
pub proof fn lemma_line_of_a_status(m: RescueMap, st: SectorStatus)
    ensures
        exists|l: Seq<char>, a: Seq<char>, b: Seq<char>, c: Seq<char>, d: Seq<char>|
            #![trigger
                is_left_aligned(l, name_of(st), 12),
                is_count(a, tally(m@, st) as int),
                is_right_aligned(b, a, 15),
                is_count(c, runs_with(m.runs(), st).len() as int),
                is_right_aligned(d, c, 6)
            ]
            is_left_aligned(l, name_of(st), 12) && is_count(a, tally(m@, st) as int)
                && is_right_aligned(b, a, 15) && is_count(
                c,
                runs_with(m.runs(), st).len() as int,
            ) && is_right_aligned(d, c, 6) && status_text(m, st) == l + " "@ + b + " bytes in "@ + d
                + " areas\n"@,
{
    let a = digits_of(tally(m@, st) as int, 10);
    let c = digits_of(runs_with(m.runs(), st).len() as int, 10);
    lemma_count(tally(m@, st) as int);
    lemma_count(runs_with(m.runs(), st).len() as int);
    lemma_padding(name_of(st), ' ', 12);
    lemma_padding(a, ' ', 15);
    lemma_padding(c, ' ', 6);
    assert(is_left_aligned(padded_right(name_of(st), 12), name_of(st), 12));
    assert(is_right_aligned(padded_left(a, ' ', 15), a, 15));
    assert(is_right_aligned(padded_left(c, ' ', 6), c, 6));
}

/// The line at the end of imaging tells the outcome, what was rescued, what
/// is bad, and how many reads failed.
pub proof fn lemma_line_of_a_summary(x: Summary)
    ensures
        exists|a: Seq<char>, b: Seq<char>, c: Seq<char>, d: Seq<char>|
            #![trigger
                is_count(a, x.rescued as int),
                is_count(b, x.bad_bytes as int),
                is_count(c, x.bad_areas as int),
                is_count(d, x.read_errors as int)
            ]
            is_count(a, x.rescued as int) && is_count(b, x.bad_bytes as int) && is_count(
                c,
                x.bad_areas as int,
            ) && is_count(d, x.read_errors as int) && summary_text(x) == (if x.outcome
                == Outcome::Finished {
                "finished"@
            } else {
                "interrupted (resume with the same command)"@
            }) + ": rescued "@ + a + " bytes, "@ + b + " bad bytes in "@ + c + " areas ("@ + d
                + " read errors)\n"@,
{
    lemma_count(x.rescued as int);
    lemma_count(x.bad_bytes as int);
    lemma_count(x.bad_areas as int);
    lemma_count(x.read_errors as int);
}

/// A complaint about a mapfile tells both sizes.
pub proof fn lemma_complaint_tells_sizes(
    mapfile: Seq<char>,
    map_size: int,
    source: Seq<char>,
    size: int,
)
    requires
        0 <= map_size,
        0 <= size,
    ensures
        exists|a: Seq<char>, b: Seq<char>|
            #![trigger is_count(a, map_size), is_count(b, size)]
            is_count(a, map_size) && is_count(b, size) && mismatch_text(
                mapfile,
                map_size,
                source,
                size,
            ) == "mapfile "@ + mapfile + " describes a "@ + a + "-byte source but "@ + source
                + " is "@ + b + " bytes"@,
{
    lemma_count(map_size);
    lemma_count(size);
}

/// The lines about progress, resumption and a scan tell their numbers.
pub proof fn lemma_lines_of_progress(m: RescueMap, files: int, outdir: Seq<char>, damaged: int)
    requires
        0 <= files,
        0 <= damaged,
    ensures
        exists|a: Seq<char>, b: Seq<char>|
            #![trigger
                is_count(a, tally(m@, SectorStatus::Rescued) as int),
                is_count(b, m.size as int)
            ]
            is_count(a, tally(m@, SectorStatus::Rescued) as int) && is_count(b, m.size as int)
                && resume_text(m) == "resuming: "@ + a + " of "@ + b
                + " bytes already rescued\n"@,
        exists|a: Seq<char>, b: Seq<char>|
            #![trigger
                is_count(a, tally(m@, SectorStatus::Bad) as int),
                is_count(b, runs_with(m.runs(), SectorStatus::Bad).len() as int)
            ]
            is_count(a, tally(m@, SectorStatus::Bad) as int) && is_count(
                b,
                runs_with(m.runs(), SectorStatus::Bad).len() as int,
            ) && imaging_text(m) == "["@ + name_of_phase(m.current_phase) + "] bad "@ + a
                + " B in "@ + b + " areas"@,
        exists|a: Seq<char>, b: Seq<char>|
            #![trigger is_count(a, files), is_count(b, damaged)]
            is_count(a, files) && is_count(b, damaged) && extracted_text(files, outdir, damaged)
                == "extracted "@ + a + " files to "@ + outdir + " ("@ + b
                + " flagged damaged)\n"@,
{
    lemma_count(tally(m@, SectorStatus::Rescued) as int);
    lemma_count(m.size as int);
    lemma_count(tally(m@, SectorStatus::Bad) as int);
    lemma_count(runs_with(m.runs(), SectorStatus::Bad).len() as int);
    lemma_count(files);
    lemma_count(damaged);
}

/// The overview of a map tells its size, what imaging is doing, where, and
/// then a line for every status.
pub proof fn lemma_overview(m: RescueMap)
    ensures
        exists|a: Seq<char>, b: Seq<char>, c: Seq<char>|
            #![trigger
                is_count(a, m.size as int),
                is_count(b, m.pass as int),
                is_place(c, m.current_pos as int, 1)
            ]
            is_count(a, m.size as int) && is_count(b, m.pass as int) && is_place(
                c,
                m.current_pos as int,
                1,
            ) && overview_text(m) == "size:      "@ + a + " bytes\n"@ + "phase:     "@
                + name_of_phase(m.current_phase) + " (pass "@ + b + ")\n"@ + "position:  0x"@ + c
                + "\n"@ + status_text(m, SectorStatus::NonTried) + status_text(
                m,
                SectorStatus::NonTrimmed,
            ) + status_text(m, SectorStatus::NonScraped) + status_text(m, SectorStatus::Bad)
                + status_text(m, SectorStatus::Rescued),
{
    lemma_count(m.size as int);
    lemma_count(m.pass as int);
    lemma_place(m.current_pos as int, 1);
    lemma_decimal_digits(0);
    assert(hex_padded(m.current_pos as int, 1) == digits_of(m.current_pos as int, 16)) by {
        crate::carve::recovery::scan::lemma_hex_padded(m.current_pos as int, 0);
        assert(digits_of(m.current_pos as int, 16).len() > 0);
    }
}

/// Each format has a line with its number of files.
pub proof fn lemma_lines_of_formats(c: Seq<(&'static str, usize)>)
    requires
        c.len() > 0,
    ensures
        exists|a: Seq<char>| #[trigger]
            is_count(a, c.last().1 as int) && counts_text(c) == counts_text(c.drop_last()) + ("  "@
                + c.last().0@ + ": "@ + a + "\n"@),
        counts_text(c.take(0)) == Seq::<char>::empty(),
{
    lemma_count(c.last().1 as int);
}

/// The lines of a mapfile have the columns of ddrescue: numbers in
/// hexadecimal digits with `0x` before them, at least eight of them, the
/// character of what imaging is doing or of a status, and the pass in
/// decimal digits.
pub proof fn lemma_columns_of_a_mapfile(m: RescueMap, e: Extent)
    ensures
        exists|a: Seq<char>, b: Seq<char>|
            #![trigger is_place(a, m.current_pos as int, 8), is_count(b, m.pass as int)]
            is_place(a, m.current_pos as int, 8) && is_count(b, m.pass as int) && status_line(m)
                == seq!['0', 'x'] + a + "     "@ + seq![
                match m.current_phase {
                    Phase::Copying => '?',
                    Phase::Trimming => '*',
                    Phase::Scraping => '/',
                    Phase::Retrying => '-',
                    Phase::Finished => '+',
                },
            ] + "               "@ + b,
        exists|a: Seq<char>, b: Seq<char>|
            #![trigger is_place(a, e.start as int, 8), is_place(b, e.len as int, 8)]
            is_place(a, e.start as int, 8) && is_place(b, e.len as int, 8) && extent_line(e)
                == seq!['0', 'x'] + a + "  "@ + (seq!['0', 'x'] + b) + "  "@ + seq![
                match e.status {
                    SectorStatus::NonTried => '?',
                    SectorStatus::NonTrimmed => '*',
                    SectorStatus::NonScraped => '/',
                    SectorStatus::Bad => '-',
                    SectorStatus::Rescued => '+',
                },
            ],
{
    lemma_place(m.current_pos as int, 8);
    lemma_count(m.pass as int);
    lemma_place(e.start as int, 8);
    lemma_place(e.len as int, 8);
}

/// The lines of a text up to its `k`-th extent.
pub open spec fn lines_of(head: Seq<char>, extents: Seq<Extent>, k: int) -> Seq<char>
    decreases k,
{
    if k <= 0 {
        head
    } else {
        lines_of(head, extents, k - 1) + extent_line(extents[k - 1]) + "\n"@
    }
}

proof fn lemma_lines_of(head: Seq<char>, extents: Seq<Extent>, k: int)
    requires
        0 <= k <= extents.len(),
    ensures
        with_extents(head, extents.take(k)) == lines_of(head, extents, k),
    decreases k,
{
    if k > 0 {
        lemma_lines_of(head, extents, k - 1);
        reveal_strlit("\n");
        assert("\n"@ =~= seq!['\n']);
        assert(extents.take(k).drop_last() =~= extents.take(k - 1));
        assert(extents.take(k).last() == extents[k - 1]);
    }
}

/// A mapfile has comments, the command line in one of them if there is one, the
/// status line, and a line for each extent, in order.
pub proof fn lemma_lines_of_a_mapfile(m: RescueMap, command_line: Seq<char>)
    ensures
        serialized(m, command_line) == lines_of(
            "# Mapfile. Created by file-rescue version 0.1.0\n"@ + (if command_line.len() == 0 {
                Seq::empty()
            } else {
                "# Command line: "@ + command_line + "\n"@
            }) + "# current_pos  current_status  current_pass\n"@ + status_line(m) + "\n"@
                + "#      pos        size  status\n"@,
            m.runs(),
            m.runs().len() as int,
        ),
{
    reveal_strlit("\n");
    reveal_strlit("# Mapfile. Created by file-rescue version 0.1.0\n");
    reveal_strlit("# Mapfile. Created by file-rescue version 0.1.0");
    reveal_strlit("# current_pos  current_status  current_pass\n");
    reveal_strlit("# current_pos  current_status  current_pass");
    reveal_strlit("#      pos        size  status\n");
    reveal_strlit("#      pos        size  status");
    let n = "\n"@;
    assert(n =~= seq!['\n']);
    assert("# Mapfile. Created by file-rescue version 0.1.0\n"@
        =~= "# Mapfile. Created by file-rescue version 0.1.0"@ + n);
    assert("# current_pos  current_status  current_pass\n"@
        =~= "# current_pos  current_status  current_pass"@ + n);
    assert("#      pos        size  status\n"@ =~= "#      pos        size  status"@ + n);
    let head = "# Mapfile. Created by file-rescue version 0.1.0\n"@ + (if command_line.len() == 0 {
        Seq::empty()
    } else {
        "# Command line: "@ + command_line + n
    }) + "# current_pos  current_status  current_pass\n"@ + status_line(m) + n
        + "#      pos        size  status\n"@;
    assert(head_text(m, command_line) =~= head);
    let runs = m.runs();
    lemma_lines_of(head, runs, runs.len() as int);
    assert(runs.take(runs.len() as int) =~= runs);
}

} // verus!
