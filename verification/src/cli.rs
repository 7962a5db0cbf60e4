//! The command line: what was asked for, as plain values.

use crate::carve::CarveOptions;
use crate::image::source::BadRegion;
use crate::image::ImagingOptions;
use crate::map::SectorStatus;
use crate::text::number::{number_value, read_number};
use crate::text::{
    chars_of, debug_quoted, push_text, quoted, split, split_at_first, split_first, split_on,
    to_text, trim, trimmed, views,
};
use std::ops::Range;
use vstd::prelude::*;

verus! {

/// What was asked for on the command line.
pub struct Cli {
    /// Suppress progress output.
    pub quiet: bool,
    pub cmd: Cmd,
}

pub enum Cmd {
    /// Copy a failing device/file into an image, tracking progress in a
    /// GNU-ddrescue-compatible mapfile (resumable; Linux only).
    Image(ImageArgs),
    /// Extract photos, videos and documents from an image by signature.
    Carve(CarveArgs),
    /// Inspect a mapfile.
    Mapfile(MapCmd),
}

pub struct ImageArgs {
    /// Source: block device (/dev/sdX) or file.
    pub source: String,
    /// Destination image file (sparse; holes = never-read data).
    pub image: String,
    /// Mapfile tracking rescue state (required, enables resume).
    pub mapfile: String,
    /// Use O_DIRECT to bypass the page cache on the source.
    pub direct: bool,
    /// Sweep the copy pass backwards.
    pub reverse: bool,
    /// Copy-pass read size in bytes.
    pub cluster_size: u64,
    /// Re-read bad sectors this many extra times after scraping.
    pub retry_passes: u32,
    /// Override the source's logical sector size.
    pub sector_size: Option<u32>,
    /// Overwrite an existing image that has no mapfile.
    pub force: bool,
    /// Inject simulated bad ranges: OFF+LEN[@FAILS][,...] (hex ok),
    /// e.g. 0x140000+0x2000,0x500000+0x400@2
    pub simulate_bad: Option<String>,
}

pub struct CarveArgs {
    /// Input image (or any file) to scan.
    pub input: String,
    /// Directory for extracted files and reports.
    pub outdir: String,
    /// Rescue mapfile: skip unrescued regions and flag damaged files.
    pub map: Option<String>,
    /// Comma-separated format names (mp4,jpeg,png,pdf). Default: all.
    pub formats: Option<String>,
    /// Test signatures only at offsets aligned to N bytes (1 = every byte).
    pub align: u64,
}

pub enum MapCmd {
    /// Summarize a mapfile: totals per status and % rescued.
    Show { mapfile: String },
    /// List extents, optionally filtered by status name or character.
    Regions {
        mapfile: String,
        /// non-tried | non-trimmed | non-scraped | bad | rescued (or ?*/-+)
        status: Option<String>,
    },
}

impl ImageArgs {
    /// The options for imaging a source with sectors of `sector_size`.
    pub fn options(&self, sector_size: u32) -> (o: ImagingOptions)
        ensures
            o == (ImagingOptions {
                cluster_size: if self.cluster_size > sector_size as u64 {
                    self.cluster_size
                } else {
                    sector_size as u64
                },
                reverse: self.reverse,
                retry_passes: self.retry_passes,
                skip_size: 65536,
                max_skip_size: 67108864,
            }),
    {
        let defaults = ImagingOptions::default();
        ImagingOptions {
            cluster_size: if self.cluster_size > sector_size as u64 {
                self.cluster_size
            } else {
                sector_size as u64
            },
            reverse: self.reverse,
            retry_passes: self.retry_passes,
            skip_size: defaults.skip_size,
            max_skip_size: defaults.max_skip_size,
        }
    }
}

/// The names in a comma-separated list.
pub open spec fn names_in(list: Seq<char>) -> Seq<Seq<char>> {
    let pieces = split_on(list, ',');
    Seq::new(pieces.len(), |i: int| trimmed(pieces[i]))
}

/// The names in a comma-separated list.
pub fn list_names(list: &str) -> (r: Vec<String>)
    ensures
        Seq::new(r@.len(), |i: int| r@[i]@) == names_in(list@),
{
    let chars: Vec<char> = chars_of(list);
    let pieces: Vec<Vec<char>> = split(&chars, ',');
    let ghost all = views(pieces@);
    let n: usize = pieces.len();
    let mut r: Vec<String> = Vec::new();
    let mut i: usize = 0;
    while i < n
        invariant
            i <= n,
            n == pieces@.len(),
            all == views(pieces@),
            r@.len() == i,
            forall|j: int| 0 <= j < i ==> (#[trigger] r@[j])@ == trimmed(all[j]),
        decreases n - i,
    {
        r.push(to_text(&trim(&pieces[i])));
        i = i + 1;
    }
    assert(Seq::new(r@.len(), |i: int| r@[i]@) =~= names_in(list@));
    r
}

impl CarveArgs {
    /// The options for scanning.
    pub fn options(&self) -> (o: CarveOptions)
        ensures
            o.align == self.align,
            crate::carve::asked(o.formats) == match self.formats {
                Some(list) => Some(names_in(list@)),
                None => None,
            },
    {
        let formats: Option<Vec<String>> = match &self.formats {
            Some(list) => Some(list_names(list.as_str())),
            None => None,
        };
        CarveOptions { align: self.align, formats }
    }
}

/// Why a text tells no simulated faults.
pub enum SpecFault {
    /// With the message that tells why.
    Malformed(Seq<char>),
    /// A region ends behind the largest 64-bit number.
    TooLong,
}

/// The number that a text stands for, without the white space around it.
pub open spec fn spec_number(s: Seq<char>) -> Result<int, SpecFault> {
    match number_value(trimmed(s)) {
        Ok(v) => Ok(v),
        Err(e) => Err(
            SpecFault::Malformed(debug_quoted(trimmed(s)) + ": "@ + e.spec_message()),
        ),
    }
}

/// A simulated fault: its range, and how often it fails.
pub type Faulty = (int, int, Option<int>);

/// The region that `range`, with `fails` behind the `@` in `part`, tells.
pub open spec fn region_in(
    part: Seq<char>,
    range: Seq<char>,
    fails: Option<int>,
) -> Result<Faulty, SpecFault> {
    match split_first(range, '+') {
        None => Err(SpecFault::Malformed("expected OFF+LEN in "@ + debug_quoted(part))),
        Some((off, len)) => match (spec_number(off), spec_number(len)) {
            (Err(f), _) => Err(f),
            (Ok(_), Err(f)) => Err(f),
            (Ok(o), Ok(l)) => if o + l > u64::MAX {
                Err(SpecFault::TooLong)
            } else {
                Ok((o, o + l, fails))
            },
        },
    }
}

/// The region that one part of a list, `OFF+LEN[@FAILS]`, tells. A count of
/// failures is a 32-bit number.
pub open spec fn part_region(part: Seq<char>) -> Result<Faulty, SpecFault> {
    match split_first(part, '@') {
        Some((range, fails)) => match spec_number(fails) {
            Ok(n) => region_in(part, range, Some(n % 0x1_0000_0000)),
            Err(f) => Err(f),
        },
        None => region_in(part, part, None),
    }
}

/// The regions that the parts of a list tell; the first fault counts.
pub open spec fn regions_in(parts: Seq<Seq<char>>) -> Result<Seq<Faulty>, SpecFault>
    decreases parts.len(),
{
    if parts.len() == 0 {
        Ok(Seq::empty())
    } else {
        match (regions_in(parts.drop_last()), part_region(parts.last())) {
            (Err(f), _) => Err(f),
            (Ok(_), Err(f)) => Err(f),
            (Ok(before), Ok(r)) => Ok(before.push(r)),
        }
    }
}

/// The mathematical value of a region.
pub open spec fn region_view(r: BadRegion) -> Faulty {
    (
        r.range.start as int,
        r.range.end as int,
        match r.remaining_failures {
            Some(n) => Some(n as int),
            None => None,
        },
    )
}

pub open spec fn region_views(v: Seq<BadRegion>) -> Seq<Faulty> {
    Seq::new(v.len(), |i: int| region_view(v[i]))
}

/// What is wrong with a list of simulated faults.
enum Flaw {
    Message(String),
    TooLong,
}

spec fn is_flaw(flaw: Flaw, f: SpecFault) -> bool {
    match flaw {
        Flaw::Message(m) => f matches SpecFault::Malformed(t) && m@ == t,
        Flaw::TooLong => f is TooLong,
    }
}

fn read_spec_number(s: &[char]) -> (r: Result<u64, Flaw>)
    ensures
        match r {
            Ok(v) => spec_number(s@) == Ok::<int, SpecFault>(v as int),
            Err(flaw) => spec_number(s@) matches Err(f) && is_flaw(flaw, f),
        },
{
    let t: Vec<char> = trim(s);
    match read_number(&t) {
        Ok(v) => Ok(v),
        Err(e) => {
            let text: String = to_text(&t);
            let mut msg: String = quoted(text.as_str());
            push_text(&mut msg, ": ");
            push_text(&mut msg, e.message());
            Err(Flaw::Message(msg))
        },
    }
}

fn read_region(part: &[char], range: &[char], fails: Option<u32>) -> (r: Result<BadRegion, Flaw>)
    ensures
        ({
            let told = region_in(
                part@,
                range@,
                match fails {
                    Some(n) => Some(n as int),
                    None => None,
                },
            );
            match r {
                Ok(x) => told == Ok::<Faulty, SpecFault>(region_view(x)),
                Err(flaw) => told matches Err(f) && is_flaw(flaw, f),
            }
        }),
{
    let (off, len): (Vec<char>, Vec<char>) = match split_at_first(range, '+') {
        Some(x) => x,
        None => {
            let text: String = to_text(part);
            let mut msg: String = String::new();
            push_text(&mut msg, "expected OFF+LEN in ");
            push_text(&mut msg, quoted(text.as_str()).as_str());
            assert(msg@ =~= "expected OFF+LEN in "@ + debug_quoted(part@));
            return Err(Flaw::Message(msg));
        },
    };
    let o: u64 = match read_spec_number(&off) {
        Ok(v) => v,
        Err(e) => {
            return Err(e);
        },
    };
    let l: u64 = match read_spec_number(&len) {
        Ok(v) => v,
        Err(e) => {
            return Err(e);
        },
    };
    if l > u64::MAX - o {
        return Err(Flaw::TooLong);
    }
    let range = Range { start: o, end: o + l };
    match fails {
        Some(n) => Ok(BadRegion::heals_after(range, n)),
        None => Ok(BadRegion::forever(range)),
    }
}

fn read_part(part: &[char]) -> (r: Result<BadRegion, Flaw>)
    ensures
        match r {
            Ok(x) => part_region(part@) == Ok::<Faulty, SpecFault>(region_view(x)),
            Err(flaw) => part_region(part@) matches Err(f) && is_flaw(flaw, f),
        },
{
    match split_at_first(part, '@') {
        Some((range, fails)) => {
            let n: u64 = match read_spec_number(&fails) {
                Ok(v) => v,
                Err(e) => {
                    return Err(e);
                },
            };
            read_region(part, &range, Some((n % 0x1_0000_0000) as u32))
        },
        None => read_region(part, part, None),
    }
}

/// The first fault in some parts is the fault of all of them.
proof fn lemma_first_fault(parts: Seq<Seq<char>>, k: int)
    requires
        0 <= k <= parts.len(),
        regions_in(parts.take(k)) is Err,
    ensures
        regions_in(parts) == regions_in(parts.take(k)),
    decreases parts.len(),
{
    if k == parts.len() {
        assert(parts.take(k) =~= parts);
    } else {
        assert(parts.drop_last().take(k) =~= parts.take(k));
        lemma_first_fault(parts.drop_last(), k);
    }
}

fn read_regions(spec: &str) -> (r: Result<Vec<BadRegion>, Flaw>)
    ensures
        match r {
            Ok(v) => regions_in(split_on(spec@, ',')) == Ok::<Seq<Faulty>, SpecFault>(
                region_views(v@),
            ),
            Err(flaw) => regions_in(split_on(spec@, ',')) matches Err(f) && is_flaw(flaw, f),
        },
{
    let chars: Vec<char> = chars_of(spec);
    let parts: Vec<Vec<char>> = split(&chars, ',');
    let ghost all = views(parts@);
    let n: usize = parts.len();
    let mut out: Vec<BadRegion> = Vec::new();
    let mut i: usize = 0;
    assert(all.take(0) =~= Seq::empty());
    assert(region_views(out@) =~= Seq::empty());
    while i < n
        invariant
            i <= n,
            n == parts@.len(),
            all == views(parts@),
            all == split_on(spec@, ','),
            regions_in(all.take(i as int)) == Ok::<Seq<Faulty>, SpecFault>(region_views(out@)),
        decreases n - i,
    {
        proof {
            assert(all.take(i + 1).drop_last() =~= all.take(i as int));
            assert(all.take(i + 1).last() == parts@[i as int]@);
        }
        match read_part(&parts[i]) {
            Ok(x) => {
                let ghost before = region_views(out@);
                out.push(x);
                assert(region_views(out@) =~= before.push(region_view(x)));
            },
            Err(flaw) => {
                proof {
                    lemma_first_fault(all, i + 1);
                }
                return Err(flaw);
            },
        }
        i = i + 1;
    }
    assert(all.take(n as int) =~= all);
    Ok(out)
}

/// Parse "OFF+LEN[@FAILS],..." with decimal or 0x-hex numbers.
pub fn parse_bad_spec(spec: &str) -> (r: Result<Vec<BadRegion>, String>)
    requires
        !(regions_in(split_on(spec@, ',')) matches Err(f) && f is TooLong),
    ensures
        match r {
            Ok(v) => regions_in(split_on(spec@, ',')) == Ok::<Seq<Faulty>, SpecFault>(
                region_views(v@),
            ),
            Err(m) => regions_in(split_on(spec@, ',')) matches Err(f) && f
                matches SpecFault::Malformed(t) && m@ == t,
        },
{
    match read_regions(spec) {
        Ok(v) => Ok(v),
        Err(Flaw::Message(m)) => Err(m),
        Err(Flaw::TooLong) => {
            proof {
                assert(false);
            }
            Err(String::new())
        },
    }
}

/// Whether the first fault of a list, if it has one, is not a region that
/// ends behind the largest 64-bit number: what [`parse_bad_spec`] takes.
pub fn bad_spec_fits(spec: &str) -> (r: bool)
    ensures
        r == !(regions_in(split_on(spec@, ',')) matches Err(f) && f is TooLong),
{
    match read_regions(spec) {
        Err(Flaw::TooLong) => false,
        _ => true,
    }
}

/// `s` without hyphens.
pub open spec fn without_hyphens(s: Seq<char>) -> Seq<char>
    decreases s.len(),
{
    if s.len() == 0 {
        s
    } else if s.last() == '-' {
        without_hyphens(s.drop_last())
    } else {
        without_hyphens(s.drop_last()).push(s.last())
    }
}

/// A text names a status: by its character, by its name with or without
/// hyphens, or `bad` for short.
pub open spec fn names_status(s: Seq<char>, st: SectorStatus) -> bool {
    ||| s.len() == 1 && SectorStatus::spec_from_char(s[0]) == Some(st)
    ||| (s.len() != 1 || SectorStatus::spec_from_char(s[0]) is None) && (without_hyphens(s)
        == without_hyphens(st.spec_label()) || (st == SectorStatus::Bad && s == "bad"@))
}

fn drop_hyphens(s: &str) -> (r: String)
    ensures
        r@ == without_hyphens(s@),
{
    let v: Vec<char> = chars_of(s);
    let n: usize = v.len();
    let mut r: String = String::new();
    let mut i: usize = 0;
    assert(v@.take(0) =~= Seq::empty());
    while i < n
        invariant
            i <= n,
            n == v@.len(),
            r@ == without_hyphens(v@.take(i as int)),
        decreases n - i,
    {
        proof {
            assert(v@.take(i + 1).drop_last() =~= v@.take(i as int));
        }
        if v[i] != '-' {
            r.push(v[i]);
        }
        i = i + 1;
    }
    assert(v@.take(n as int) =~= v@);
    r
}

/// The labels of the statuses differ without hyphens too.
proof fn lemma_labels_differ()
    ensures
        without_hyphens("non-tried"@) == "nontried"@,
        without_hyphens("non-trimmed"@) == "nontrimmed"@,
        without_hyphens("non-scraped"@) == "nonscraped"@,
        without_hyphens("bad-sector"@) == "badsector"@,
        without_hyphens("rescued"@) == "rescued"@,
        without_hyphens("bad"@) == "bad"@,
        "nontried"@.len() == 8,
        "nontrimmed"@.len() == 10,
        "nonscraped"@.len() == 10,
        "nontrimmed"@[3] != "nonscraped"@[3],
        "badsector"@.len() == 9,
        "rescued"@.len() == 7,
        "bad"@.len() == 3,
{
    reveal_strlit("non-tried");
    reveal_strlit("non-trimmed");
    reveal_strlit("non-scraped");
    reveal_strlit("bad-sector");
    reveal_strlit("rescued");
    reveal_strlit("bad");
    reveal_strlit("nontried");
    reveal_strlit("nontrimmed");
    reveal_strlit("nonscraped");
    reveal_strlit("badsector");
    lemma_hyphen_at("non-tried"@, 3);
    lemma_hyphen_at("non-trimmed"@, 3);
    lemma_hyphen_at("non-scraped"@, 3);
    lemma_hyphen_at("bad-sector"@, 3);
    lemma_no_hyphens("rescued"@);
    lemma_no_hyphens("bad"@);
    assert("non-tried"@.remove(3) =~= "nontried"@);
    assert("non-trimmed"@.remove(3) =~= "nontrimmed"@);
    assert("non-scraped"@.remove(3) =~= "nonscraped"@);
    assert("bad-sector"@.remove(3) =~= "badsector"@);
}

proof fn lemma_no_hyphens(s: Seq<char>)
    requires
        forall|i: int| 0 <= i < s.len() ==> #[trigger] s[i] != '-',
    ensures
        without_hyphens(s) == s,
    decreases s.len(),
{
    if s.len() > 0 {
        assert forall|i: int| 0 <= i < s.drop_last().len() implies #[trigger] s.drop_last()[i]
            != '-' by {
            assert(s.drop_last()[i] == s[i]);
        }
        lemma_no_hyphens(s.drop_last());
        assert(s[s.len() - 1] != '-');
        assert(s.drop_last().push(s.last()) =~= s);
    }
}

proof fn lemma_hyphen_at(s: Seq<char>, k: int)
    requires
        0 <= k < s.len(),
        s[k] == '-',
        forall|i: int| 0 <= i < s.len() && i != k ==> #[trigger] s[i] != '-',
    ensures
        without_hyphens(s) == s.remove(k),
    decreases s.len(),
{
    let t = s.drop_last();
    if k == s.len() - 1 {
        assert forall|i: int| 0 <= i < t.len() implies #[trigger] t[i] != '-' by {
            assert(t[i] == s[i]);
        }
        lemma_no_hyphens(t);
        assert(s.remove(k) =~= t);
    } else {
        assert forall|i: int| 0 <= i < t.len() && i != k implies #[trigger] t[i] != '-' by {
            assert(t[i] == s[i]);
        }
        assert(t[k] == s[k]);
        lemma_hyphen_at(t, k);
        assert(s[s.len() - 1] != '-');
        assert(s.remove(k) =~= t.remove(k).push(s.last()));
    }
}

/// No text names two statuses.
pub proof fn lemma_status_names_are_unique(s: Seq<char>, a: SectorStatus, b: SectorStatus)
    requires
        names_status(s, a),
        names_status(s, b),
    ensures
        a == b,
{
    lemma_labels_differ();
}

/// The message for a text that names no status.
pub open spec fn unknown_status(s: Seq<char>) -> Seq<char> {
    "unknown status "@ + debug_quoted(s)
        + " (use ?, *, /, -, + or the names non-tried, non-trimmed, non-scraped, bad-sector, rescued)"@
}

/// The status that a text names.
pub fn parse_status(s: &str) -> (r: Result<SectorStatus, String>)
    ensures
        match r {
            Ok(st) => names_status(s@, st),
            Err(m) => (forall|st: SectorStatus| !#[trigger] names_status(s@, st)) && m@
                == unknown_status(s@),
        },
{
    let v: Vec<char> = chars_of(s);
    if v.len() == 1 {
        if let Some(st) = SectorStatus::from_char(v[0]) {
            return Ok(st);
        }
    }
    let wanted: String = drop_hyphens(s);
    let statuses: [SectorStatus; 5] = SectorStatus::ALL;
    let mut i: usize = 0;
    while i < 5
        invariant
            i <= 5,
            statuses == SectorStatus::ALL,
            wanted@ == without_hyphens(s@),
            s@.len() != 1 || SectorStatus::spec_from_char(s@[0]) is None,
            forall|j: int|
                0 <= j < i ==> wanted@ != without_hyphens((#[trigger] statuses@[j]).spec_label()),
        decreases 5 - i,
    {
        let st: SectorStatus = statuses[i];
        if drop_hyphens(st.label()) == wanted {
            return Ok(st);
        }
        i = i + 1;
    }
    if s.to_owned() == "bad".to_owned() {
        return Ok(SectorStatus::Bad);
    }
    let mut msg: String = String::new();
    push_text(&mut msg, "unknown status ");
    push_text(&mut msg, quoted(s).as_str());
    push_text(
        &mut msg,
        " (use ?, *, /, -, + or the names non-tried, non-trimmed, non-scraped, bad-sector, rescued)",
    );
    proof {
        assert(msg@ =~= unknown_status(s@));
        assert forall|st: SectorStatus| !#[trigger] names_status(s@, st) by {
            assert(statuses@[0] == SectorStatus::NonTried);
            assert(statuses@[1] == SectorStatus::NonTrimmed);
            assert(statuses@[2] == SectorStatus::NonScraped);
            assert(statuses@[3] == SectorStatus::Bad);
            assert(statuses@[4] == SectorStatus::Rescued);
        }
    }
    Err(msg)
}

} // verus!
