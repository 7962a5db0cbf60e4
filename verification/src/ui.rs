//! The lines that are printed.

use crate::carve::report::{count_damaged, count_formats, counts_formats, damaged_among};
use crate::carve::{file_views, CarvedFile};
use crate::image::{Outcome, Summary};
use crate::map::{runs_with, tally, Extent, RescueMap, SectorStatus};
use crate::text::number::{
    digits_of, hex_padded, pad_left, pad_right, padded_left, padded_right, write_digits, write_hex,
};
use crate::text::{chars_of, push_chars, push_text};
use vstd::prelude::*;

verus! {

/// Append a decimal number.
fn push_number(s: &mut String, n: u64)
    ensures
        final(s)@ == old(s)@ + digits_of(n as int, 10),
{
    push_chars(s, &write_digits(n, 10));
}

/// The line of an extent: start and length, character and name of the
/// status.
pub open spec fn region_text(e: Extent) -> Seq<char> {
    "0x"@ + hex_padded(e.start as int, 10) + " 0x"@ + hex_padded(e.len as int, 10) + " "@ + seq![
        e.status.spec_char(),
    ] + " "@ + e.status.spec_label() + "\n"@
}

pub fn region_line(e: &Extent) -> (s: String)
    ensures
        s@ == region_text(*e),
{
    let mut s: String = String::new();
    push_text(&mut s, "0x");
    assert(s@ =~= "0x"@);
    push_chars(&mut s, &write_hex(e.start, 10));
    push_text(&mut s, " 0x");
    push_chars(&mut s, &write_hex(e.len, 10));
    push_text(&mut s, " ");
    let ghost before = s@;
    s.push(e.status.as_char());
    assert(s@ =~= before + seq![e.status.spec_char()]);
    push_text(&mut s, " ");
    push_text(&mut s, e.status.label());
    push_text(&mut s, "\n");
    s
}

/// The lines of some extents, or of those with one status.
pub open spec fn regions_text(extents: Seq<Extent>, status: Option<SectorStatus>) -> Seq<char>
    decreases extents.len(),
{
    if extents.len() == 0 {
        Seq::empty()
    } else {
        let before = regions_text(extents.drop_last(), status);
        match status {
            Some(st) if extents.last().status != st => before,
            _ => before + region_text(extents.last()),
        }
    }
}

/// List the extents of a map, or those with one status.
pub fn region_lines(map: &RescueMap, status: Option<SectorStatus>) -> (s: String)
    ensures
        s@ == regions_text(map.runs(), status),
{
    let extents: &[Extent] = map.extents();
    let n: usize = extents.len();
    let mut s: String = String::new();
    let mut i: usize = 0;
    assert(map.runs().take(0) =~= Seq::empty());
    while i < n
        invariant
            i <= n,
            n == extents@.len(),
            extents@ == map.runs(),
            s@ == regions_text(map.runs().take(i as int), status),
        decreases n - i,
    {
        let e: Extent = extents[i];
        proof {
            assert(map.runs().take(i + 1).drop_last() =~= map.runs().take(i as int));
        }
        let listed: bool = match status {
            Some(st) => st == e.status,
            None => true,
        };
        if listed {
            push_text(&mut s, region_line(&e).as_str());
        }
        i = i + 1;
    }
    assert(map.runs().take(n as int) =~= map.runs());
    s
}

/// The line for one status: its bytes and areas.
pub open spec fn status_text(m: RescueMap, st: SectorStatus) -> Seq<char> {
    padded_right(st.spec_label(), 12) + " "@ + padded_left(
        digits_of(tally(m@, st) as int, 10),
        ' ',
        15,
    ) + " bytes in "@ + padded_left(
        digits_of(runs_with(m.runs(), st).len() as int, 10),
        ' ',
        6,
    ) + " areas\n"@
}

fn status_line(map: &RescueMap, st: SectorStatus) -> (s: String)
    requires
        map.wf(),
    ensures
        s@ == status_text(*map, st),
{
    let label: Vec<char> = chars_of(st.label());
    let bytes: Vec<char> = write_digits(map.bytes_with(st), 10);
    let areas: Vec<char> = write_digits(map.count_with(st), 10);
    let mut s: String = String::new();
    push_chars(&mut s, &pad_right(&label, 12));
    assert(s@ =~= padded_right(st.spec_label(), 12));
    push_text(&mut s, " ");
    push_chars(&mut s, &pad_left(&bytes, ' ', 15));
    push_text(&mut s, " bytes in ");
    push_chars(&mut s, &pad_left(&areas, ' ', 6));
    push_text(&mut s, " areas\n");
    s
}

/// The summary of a map: size, phase and position, and a line for each
/// status.
pub open spec fn overview_text(m: RescueMap) -> Seq<char> {
    "size:      "@ + digits_of(m.size as int, 10) + " bytes\n"@ + "phase:     "@
        + m.current_phase.spec_label() + " (pass "@ + digits_of(m.pass as int, 10) + ")\n"@
        + "position:  0x"@ + digits_of(m.current_pos as int, 16) + "\n"@ + status_text(
        m,
        SectorStatus::NonTried,
    ) + status_text(m, SectorStatus::NonTrimmed) + status_text(m, SectorStatus::NonScraped)
        + status_text(m, SectorStatus::Bad) + status_text(m, SectorStatus::Rescued)
}

pub fn overview(map: &RescueMap) -> (s: String)
    requires
        map.wf(),
    ensures
        s@ == overview_text(*map),
{
    let mut s: String = String::new();
    push_text(&mut s, "size:      ");
    assert(s@ =~= "size:      "@);
    push_number(&mut s, map.size);
    push_text(&mut s, " bytes\n");
    push_text(&mut s, "phase:     ");
    push_text(&mut s, map.current_phase.label());
    push_text(&mut s, " (pass ");
    push_number(&mut s, map.pass as u64);
    push_text(&mut s, ")\n");
    push_text(&mut s, "position:  0x");
    push_chars(&mut s, &write_digits(map.current_pos, 16));
    push_text(&mut s, "\n");
    push_text(&mut s, status_line(map, SectorStatus::NonTried).as_str());
    push_text(&mut s, status_line(map, SectorStatus::NonTrimmed).as_str());
    push_text(&mut s, status_line(map, SectorStatus::NonScraped).as_str());
    push_text(&mut s, status_line(map, SectorStatus::Bad).as_str());
    push_text(&mut s, status_line(map, SectorStatus::Rescued).as_str());
    s
}

/// The line at the end of imaging.
pub open spec fn summary_text(x: Summary) -> Seq<char> {
    (match x.outcome {
        Outcome::Finished => "finished"@,
        Outcome::Interrupted => "interrupted (resume with the same command)"@,
    }) + ": rescued "@ + digits_of(x.rescued as int, 10) + " bytes, "@ + digits_of(
        x.bad_bytes as int,
        10,
    ) + " bad bytes in "@ + digits_of(x.bad_areas as int, 10) + " areas ("@ + digits_of(
        x.read_errors as int,
        10,
    ) + " read errors)\n"@
}

pub fn summary_line(x: &Summary) -> (s: String)
    ensures
        s@ == summary_text(*x),
{
    let outcome: &'static str = match x.outcome {
        Outcome::Finished => "finished",
        Outcome::Interrupted => "interrupted (resume with the same command)",
    };
    let mut s: String = String::new();
    push_text(&mut s, outcome);
    assert(s@ =~= outcome@);
    push_text(&mut s, ": rescued ");
    push_number(&mut s, x.rescued);
    push_text(&mut s, " bytes, ");
    push_number(&mut s, x.bad_bytes);
    push_text(&mut s, " bad bytes in ");
    push_number(&mut s, x.bad_areas);
    push_text(&mut s, " areas (");
    push_number(&mut s, x.read_errors);
    push_text(&mut s, " read errors)\n");
    s
}

/// What the progress bar tells while imaging.
pub open spec fn imaging_text(m: RescueMap) -> Seq<char> {
    "["@ + m.current_phase.spec_label() + "] bad "@ + digits_of(
        tally(m@, SectorStatus::Bad) as int,
        10,
    ) + " B in "@ + digits_of(runs_with(m.runs(), SectorStatus::Bad).len() as int, 10)
        + " areas"@
}

pub fn imaging_message(map: &RescueMap) -> (s: String)
    requires
        map.wf(),
    ensures
        s@ == imaging_text(*map),
{
    let mut s: String = String::new();
    push_text(&mut s, "[");
    assert(s@ =~= "["@);
    push_text(&mut s, map.current_phase.label());
    push_text(&mut s, "] bad ");
    push_number(&mut s, map.bytes_with(SectorStatus::Bad));
    push_text(&mut s, " B in ");
    push_number(&mut s, map.count_with(SectorStatus::Bad));
    push_text(&mut s, " areas");
    s
}

/// What is told when imaging is taken up again.
pub open spec fn resume_text(m: RescueMap) -> Seq<char> {
    "resuming: "@ + digits_of(tally(m@, SectorStatus::Rescued) as int, 10) + " of "@ + digits_of(
        m.size as int,
        10,
    ) + " bytes already rescued\n"@
}

pub fn resume_line(map: &RescueMap) -> (s: String)
    requires
        map.wf(),
    ensures
        s@ == resume_text(*map),
{
    let mut s: String = String::new();
    push_text(&mut s, "resuming: ");
    assert(s@ =~= "resuming: "@);
    push_number(&mut s, map.bytes_with(SectorStatus::Rescued));
    push_text(&mut s, " of ");
    push_number(&mut s, map.size);
    push_text(&mut s, " bytes already rescued\n");
    s
}

/// The complaint about a mapfile that is not of the source.
pub open spec fn mismatch_text(
    mapfile: Seq<char>,
    map_size: int,
    source: Seq<char>,
    size: int,
) -> Seq<char> {
    "mapfile "@ + mapfile + " describes a "@ + digits_of(map_size, 10) + "-byte source but "@
        + source + " is "@ + digits_of(size, 10) + " bytes"@
}

/// A mapfile can only be used for a source of its size; `None` where it
/// can.
pub fn size_mismatch(mapfile: &str, map: &RescueMap, source: &str, size: u64) -> (r: Option<
    String,
>)
    ensures
        match r {
            Some(s) => map.size != size && s@ == mismatch_text(
                mapfile@,
                map.size as int,
                source@,
                size as int,
            ),
            None => map.size == size,
        },
{
    if map.size == size {
        return None;
    }
    let mut s: String = String::new();
    push_text(&mut s, "mapfile ");
    assert(s@ =~= "mapfile "@);
    push_text(&mut s, mapfile);
    push_text(&mut s, " describes a ");
    push_number(&mut s, map.size);
    push_text(&mut s, "-byte source but ");
    push_text(&mut s, source);
    push_text(&mut s, " is ");
    push_number(&mut s, size);
    push_text(&mut s, " bytes");
    Some(s)
}

/// The line after a scan: how many files, where to, and how many of them
/// are damaged.
pub open spec fn extracted_text(files: int, outdir: Seq<char>, damaged: int) -> Seq<char> {
    "extracted "@ + digits_of(files, 10) + " files to "@ + outdir + " ("@ + digits_of(damaged, 10)
        + " flagged damaged)\n"@
}

/// The lines with the number of files of each format.
pub open spec fn counts_text(c: Seq<(&'static str, usize)>) -> Seq<char>
    decreases c.len(),
{
    if c.len() == 0 {
        Seq::empty()
    } else {
        counts_text(c.drop_last()) + ("  "@ + c.last().0@ + ": "@ + digits_of(
            c.last().1 as int,
            10,
        ) + "\n"@)
    }
}

fn extracted_line(files: usize, outdir: &str, damaged: usize) -> (s: String)
    ensures
        s@ == extracted_text(files as int, outdir@, damaged as int),
{
    let mut s: String = String::new();
    push_text(&mut s, "extracted ");
    assert(s@ =~= "extracted "@);
    push_number(&mut s, files as u64);
    push_text(&mut s, " files to ");
    push_text(&mut s, outdir);
    push_text(&mut s, " (");
    push_number(&mut s, damaged as u64);
    push_text(&mut s, " flagged damaged)\n");
    s
}

/// The lines after a scan.
pub fn carved_lines(files: &[CarvedFile], outdir: &str) -> (s: String)
    ensures
        exists|c: Seq<(&'static str, usize)>| #[trigger]
            counts_formats(c, file_views(files@), files@.len() as int) && s@ == extracted_text(
                files@.len() as int,
                outdir@,
                damaged_among(file_views(files@), files@.len() as int),
            ) + counts_text(c),
{
    let mut s: String = extracted_line(files.len(), outdir, count_damaged(files));
    let counts: Vec<(&'static str, usize)> = count_formats(files);
    let ghost head = s@;
    let n: usize = counts.len();
    let mut i: usize = 0;
    assert(counts@.take(0) =~= Seq::empty());
    assert(head + counts_text(counts@.take(0)) =~= head);
    while i < n
        invariant
            i <= n,
            n == counts@.len(),
            s@ == head + counts_text(counts@.take(i as int)),
        decreases n - i,
    {
        let (format, count): (&'static str, usize) = counts[i];
        let mut line: String = String::new();
        push_text(&mut line, "  ");
        assert(line@ =~= "  "@);
        push_text(&mut line, format);
        push_text(&mut line, ": ");
        push_number(&mut line, count as u64);
        push_text(&mut line, "\n");
        let ghost before = s@;
        push_text(&mut s, line.as_str());
        proof {
            let t = counts@.take(i + 1);
            assert(t.drop_last() =~= counts@.take(i as int));
            assert(head + counts_text(t) =~= before + line@);
        }
        i = i + 1;
    }
    assert(counts@.take(n as int) =~= counts@);
    s
}

} // verus!
