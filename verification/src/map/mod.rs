//! In-memory rescue map: a sorted, coalesced list of extents covering
//! `[0, size)`, each with a [`SectorStatus`]. The list is the run-length
//! form of the map's view, which gives every byte its status.

pub mod format;
pub mod laws;
pub mod reading;

use vstd::prelude::*;

verus! {

/// State of a byte range of the source, using ddrescue's five states.
#[derive(Clone, Copy, PartialEq, Eq, Debug, Hash, Structural)]
pub enum SectorStatus {
    /// `?`: not tried yet.
    NonTried,
    /// `*`: a read failed somewhere in this block; edges not yet located.
    NonTrimmed,
    /// `/`: edges located; interior not yet read sector by sector.
    NonScraped,
    /// `-`: a single-sector read failed.
    Bad,
    /// `+`: successfully rescued.
    Rescued,
}

impl SectorStatus {
    pub const ALL: [SectorStatus; 5] = [
        SectorStatus::NonTried,
        SectorStatus::NonTrimmed,
        SectorStatus::NonScraped,
        SectorStatus::Bad,
        SectorStatus::Rescued,
    ];

    /// The mapfile character of a status.
    pub open spec fn spec_char(self) -> char {
        match self {
            SectorStatus::NonTried => '?',
            SectorStatus::NonTrimmed => '*',
            SectorStatus::NonScraped => '/',
            SectorStatus::Bad => '-',
            SectorStatus::Rescued => '+',
        }
    }

    pub fn as_char(self) -> (c: char)
        ensures
            c == self.spec_char(),
    {
        match self {
            SectorStatus::NonTried => '?',
            SectorStatus::NonTrimmed => '*',
            SectorStatus::NonScraped => '/',
            SectorStatus::Bad => '-',
            SectorStatus::Rescued => '+',
        }
    }

    /// The status of a mapfile character.
    pub open spec fn spec_from_char(c: char) -> Option<SectorStatus> {
        match c {
            '?' => Some(SectorStatus::NonTried),
            '*' => Some(SectorStatus::NonTrimmed),
            '/' => Some(SectorStatus::NonScraped),
            '-' => Some(SectorStatus::Bad),
            '+' => Some(SectorStatus::Rescued),
            _ => None,
        }
    }

    pub fn from_char(c: char) -> (r: Option<Self>)
        ensures
            r == Self::spec_from_char(c),
            r matches Some(s) ==> s.spec_char() == c,
    {
        match c {
            '?' => Some(SectorStatus::NonTried),
            '*' => Some(SectorStatus::NonTrimmed),
            '/' => Some(SectorStatus::NonScraped),
            '-' => Some(SectorStatus::Bad),
            '+' => Some(SectorStatus::Rescued),
            _ => None,
        }
    }

    /// The display name of a status.
    pub open spec fn spec_label(self) -> Seq<char> {
        match self {
            SectorStatus::NonTried => "non-tried"@,
            SectorStatus::NonTrimmed => "non-trimmed"@,
            SectorStatus::NonScraped => "non-scraped"@,
            SectorStatus::Bad => "bad-sector"@,
            SectorStatus::Rescued => "rescued"@,
        }
    }

    pub fn label(self) -> (s: &'static str)
        ensures
            s@ == self.spec_label(),
    {
        match self {
            SectorStatus::NonTried => "non-tried",
            SectorStatus::NonTrimmed => "non-trimmed",
            SectorStatus::NonScraped => "non-scraped",
            SectorStatus::Bad => "bad-sector",
            SectorStatus::Rescued => "rescued",
        }
    }
}

/// A contiguous byte range with a single status.
#[derive(Clone, Copy, Debug, PartialEq, Eq, Structural)]
pub struct Extent {
    pub start: u64,
    pub len: u64,
    pub status: SectorStatus,
}

impl Extent {
    pub open spec fn spec_end(self) -> int {
        self.start + self.len
    }

    pub fn end(&self) -> (r: u64)
        requires
            self.spec_end() <= u64::MAX,
        ensures
            r == self.spec_end(),
    {
        self.start + self.len
    }
}

/// Current operation phase, stored as the mapfile's `current_status` column.
#[derive(Clone, Copy, PartialEq, Eq, Debug, Structural)]
pub enum Phase {
    Copying,
    Trimming,
    Scraping,
    Retrying,
    Finished,
}

impl Phase {
    /// The mapfile character of a phase.
    pub open spec fn spec_char(self) -> char {
        match self {
            Phase::Copying => '?',
            Phase::Trimming => '*',
            Phase::Scraping => '/',
            Phase::Retrying => '-',
            Phase::Finished => '+',
        }
    }

    pub fn as_char(self) -> (c: char)
        ensures
            c == self.spec_char(),
    {
        match self {
            Phase::Copying => '?',
            Phase::Trimming => '*',
            Phase::Scraping => '/',
            Phase::Retrying => '-',
            Phase::Finished => '+',
        }
    }

    /// The phase of a mapfile character.
    pub open spec fn spec_from_char(c: char) -> Option<Phase> {
        match c {
            '?' => Some(Phase::Copying),
            '*' => Some(Phase::Trimming),
            '/' => Some(Phase::Scraping),
            '-' => Some(Phase::Retrying),
            '+' => Some(Phase::Finished),
            _ => None,
        }
    }

    pub fn from_char(c: char) -> (r: Option<Self>)
        ensures
            r == Self::spec_from_char(c),
            r matches Some(p) ==> p.spec_char() == c,
    {
        match c {
            '?' => Some(Phase::Copying),
            '*' => Some(Phase::Trimming),
            '/' => Some(Phase::Scraping),
            '-' => Some(Phase::Retrying),
            '+' => Some(Phase::Finished),
            _ => None,
        }
    }

    /// The display name of a phase.
    pub open spec fn spec_label(self) -> Seq<char> {
        match self {
            Phase::Copying => "copying"@,
            Phase::Trimming => "trimming"@,
            Phase::Scraping => "scraping"@,
            Phase::Retrying => "retrying"@,
            Phase::Finished => "finished"@,
        }
    }

    pub fn label(self) -> (s: &'static str)
        ensures
            s@ == self.spec_label(),
    {
        match self {
            Phase::Copying => "copying",
            Phase::Trimming => "trimming",
            Phase::Scraping => "scraping",
            Phase::Retrying => "retrying",
            Phase::Finished => "finished",
        }
    }
}

/// Where a list of runs ends.
pub open spec fn runs_end(s: Seq<Extent>) -> int {
    if s.len() == 0 {
        0
    } else {
        s.last().spec_end()
    }
}

/// `s` is a gap-free list of non-empty runs from byte 0, in which no two
/// neighbours have the same status.
pub open spec fn is_run_list(s: Seq<Extent>) -> bool {
    &&& forall|i: int|
        0 <= i < s.len() ==> (#[trigger] s[i]).len > 0 && s[i].spec_end() <= u64::MAX
    &&& s.len() > 0 ==> s[0].start == 0
    &&& forall|i: int, j: int|
        0 <= i && j == i + 1 && j < s.len() ==> (#[trigger] s[i]).spec_end() == (
        #[trigger] s[j]).start && s[i].status != s[j].status
}

/// The status that a list of runs gives to byte `i`.
pub open spec fn status_in(s: Seq<Extent>, i: int) -> SectorStatus
    decreases s.len(),
{
    if s.len() == 0 {
        SectorStatus::NonTried
    } else if s.last().start <= i {
        s.last().status
    } else {
        status_in(s.drop_last(), i)
    }
}

/// How many bytes of `s` have the status `st`.
pub open spec fn tally(s: Seq<SectorStatus>, st: SectorStatus) -> nat
    decreases s.len(),
{
    if s.len() == 0 {
        0
    } else {
        tally(s.drop_last(), st) + if s.last() == st {
            1nat
        } else {
            0nat
        }
    }
}

/// `s` with the bytes `[start, start + len)` set to `st`.
pub open spec fn marked(
    s: Seq<SectorStatus>,
    start: int,
    len: int,
    st: SectorStatus,
) -> Seq<SectorStatus> {
    Seq::new(
        s.len(),
        |i: int|
            if start <= i < start + len {
                st
            } else {
                s[i]
            },
    )
}

/// Sorted, non-overlapping, coalesced extents covering `[0, size)`.
#[derive(Clone, Debug)]
pub struct RescueMap {
    pub extents: Vec<Extent>,
    pub size: u64,
    pub current_pos: u64,
    pub current_phase: Phase,
    pub pass: u32,
}

impl View for RescueMap {
    type V = Seq<SectorStatus>;

    /// The status of every byte.
    open spec fn view(&self) -> Seq<SectorStatus> {
        Seq::new(self.size as nat, |i: int| status_in(self.extents@, i))
    }
}

/// The runs of a list before the last one end where the last one starts.
proof fn lemma_run_prefix(s: Seq<Extent>)
    requires
        is_run_list(s),
        s.len() > 0,
    ensures
        is_run_list(s.drop_last()),
        runs_end(s.drop_last()) == s.last().start,
{
    if s.len() > 1 {
        assert(s[s.len() - 2].spec_end() == s[s.len() - 1].start);
    }
}

/// Runs are in order: each ends at or before the start of every later one.
proof fn lemma_runs_sorted(s: Seq<Extent>, i: int, j: int)
    requires
        is_run_list(s),
        0 <= i < j < s.len(),
    ensures
        s[i].spec_end() <= s[j].start,
    decreases j - i,
{
    assert(s[j - 1].spec_end() == s[j].start);
    if i < j - 1 {
        lemma_runs_sorted(s, i, j - 1);
    }
}

/// The status of a byte is that of the run it lies in.
proof fn lemma_status_in_run(s: Seq<Extent>, k: int, i: int)
    requires
        is_run_list(s),
        0 <= k < s.len(),
        s[k].start <= i < s[k].spec_end(),
    ensures
        status_in(s, i) == s[k].status,
    decreases s.len(),
{
    if k < s.len() - 1 {
        lemma_runs_sorted(s, k, s.len() - 1);
        lemma_run_prefix(s);
        lemma_status_in_run(s.drop_last(), k, i);
    }
}

/// Every byte before the end lies in some run.
proof fn lemma_run_of(s: Seq<Extent>, i: int) -> (k: int)
    requires
        is_run_list(s),
        0 <= i < runs_end(s),
    ensures
        0 <= k < s.len(),
        s[k].start <= i < s[k].spec_end(),
        status_in(s, i) == s[k].status,
    decreases s.len(),
{
    if s.last().start <= i {
        s.len() - 1
    } else {
        lemma_run_prefix(s);
        lemma_run_of(s.drop_last(), i)
    }
}

impl RescueMap {
    /// The extents, as a mathematical sequence.
    pub open spec fn runs(&self) -> Seq<Extent> {
        self.extents@
    }

    /// The extents are coalesced runs that cover exactly `[0, size)`.
    pub open spec fn wf(&self) -> bool {
        &&& is_run_list(self.runs())
        &&& runs_end(self.runs()) == self.size
    }

    /// A fresh map: the whole source is non-tried.
    pub fn new_untried(size: u64) -> (map: Self)
        ensures
            map.wf(),
            map.size == size,
            map@ == Seq::new(size as nat, |i: int| SectorStatus::NonTried),
            map.current_pos == 0,
            map.current_phase == Phase::Copying,
            map.pass == 1,
    {
        let mut extents: Vec<Extent> = Vec::new();
        if size > 0 {
            extents.push(Extent { start: 0, len: size, status: SectorStatus::NonTried });
        }
        let map = RescueMap {
            extents,
            size,
            current_pos: 0,
            current_phase: Phase::Copying,
            pass: 1,
        };
        assert(map@ =~= Seq::new(size as nat, |i: int| SectorStatus::NonTried));
        map
    }

    pub fn extents(&self) -> (s: &[Extent])
        ensures
            s@ == self.runs(),
    {
        self.extents.as_slice()
    }

    /// Set `[start, start + len)` (clamped to the map) to `status`,
    /// splitting and re-coalescing extents as needed.
    pub fn mark(&mut self, start: u64, len: u64, status: SectorStatus)
        requires
            old(self).wf(),
        ensures
            final(self).wf(),
            final(self)@ == marked(old(self)@, start as int, len as int, status),
            final(self).size == old(self).size,
            final(self).current_pos == old(self).current_pos,
            final(self).current_phase == old(self).current_phase,
            final(self).pass == old(self).pass,
    {
        let start0: u64 = start;
        let start: u64 = if start < self.size {
            start
        } else {
            self.size
        };
        let end0: u64 = start.saturating_add(len);
        let end: u64 = if end0 < self.size {
            end0
        } else {
            self.size
        };
        if start >= end {
            assert(self@ =~= marked(old(self)@, start0 as int, len as int, status));
            return ;
        }
        let ghost old_runs = self.extents@;
        let mut out: Vec<Extent> = Vec::new();
        let mut inserted: bool = false;
        let insert = Extent { start, len: end - start, status };
        let n: usize = self.extents.len();
        let mut k: usize = 0;
        let ghost mut prev_end: int = 0;
        while k < n
            invariant
                k <= n,
                n == self.extents@.len(),
                self.extents@ == old_runs,
                is_run_list(old_runs),
                runs_end(old_runs) == self.size,
                start < end <= self.size,
                insert == (Extent { start, len: (end - start) as u64, status }),
                prev_end == runs_end(old_runs.take(k as int)),
                is_run_list(out@),
                !inserted ==> prev_end <= start && runs_end(out@) == prev_end,
                inserted ==> prev_end > start && runs_end(out@) == if prev_end > end {
                    prev_end
                } else {
                    end as int
                },
                forall|i: int|
                    0 <= i < runs_end(out@) ==> #[trigger] status_in(out@, i) == if start <= i
                        < end {
                        status
                    } else {
                        status_in(old_runs, i)
                    },
                self.size == old(self).size,
                self.current_pos == old(self).current_pos,
                self.current_phase == old(self).current_phase,
                self.pass == old(self).pass,
            decreases n - k,
        {
            let e: Extent = self.extents[k];
            proof {
                if k > 0 {
                    assert(old_runs[k - 1].spec_end() == old_runs[k as int].start);
                }
                assert(old_runs.take(k + 1).last() == e);
                assert(e.start == prev_end);
                if k < n - 1 {
                    lemma_runs_sorted(old_runs, k as int, n - 1);
                }
                assert(e.spec_end() <= self.size);
                assert forall|i: int| e.start <= i < e.spec_end() implies #[trigger] status_in(
                    old_runs,
                    i,
                ) == e.status by {
                    lemma_status_in_run(old_runs, k as int, i);
                }
                prev_end = e.spec_end();
            }
            if e.end() <= start {
                push_coalesced(&mut out, e);
            } else {
                if !inserted && e.start >= start {
                    push_coalesced(&mut out, insert);
                    inserted = true;
                }
                if e.start >= end {
                    push_coalesced(&mut out, e);
                } else {
                    // e overlaps [start, end): keep the non-overlapped parts.
                    if e.start < start {
                        push_coalesced(
                            &mut out,
                            Extent { start: e.start, len: start - e.start, status: e.status },
                        );
                        if !inserted {
                            push_coalesced(&mut out, insert);
                            inserted = true;
                        }
                    }
                    if e.end() > end {
                        push_coalesced(
                            &mut out,
                            Extent { start: end, len: e.end() - end, status: e.status },
                        );
                    }
                }
            }
            k = k + 1;
        }
        assert(old_runs.take(n as int) =~= old_runs);
        self.extents = out;
        assert(self@ =~= marked(old(self)@, start0 as int, len as int, status));
    }

    /// All extents with the given status, in address order.
    pub fn ranges(&self, status: SectorStatus) -> (r: Vec<Extent>)
        ensures
            r@ == runs_with(self.runs(), status),
    {
        let ghost pred = |e: Extent| e.status == status;
        let mut out: Vec<Extent> = Vec::new();
        let n: usize = self.extents.len();
        let mut k: usize = 0;
        assert(self.runs().take(0) =~= Seq::<Extent>::empty());
        while k < n
            invariant
                k <= n,
                n == self.extents@.len(),
                pred == (|e: Extent| e.status == status),
                out@ == self.runs().take(k as int).filter(pred),
            decreases n - k,
        {
            let e: Extent = self.extents[k];
            proof {
                reveal(Seq::filter);
                assert(self.runs().take(k + 1).drop_last() =~= self.runs().take(k as int));
                assert(self.runs().take(k + 1).last() == e);
            }
            if e.status == status {
                out.push(e);
            }
            k = k + 1;
        }
        assert(self.runs().take(n as int) =~= self.runs());
        out
    }

    /// First extent with `status` whose end is after `pos` (the next one to
    /// work on when sweeping forward from `pos`).
    pub fn next_range(&self, status: SectorStatus, pos: u64) -> (r: Option<Extent>)
        requires
            self.wf(),
        ensures
            match r {
                Some(e) => exists|k: int|
                    #[trigger] is_next_run(self.runs(), k, status, pos as int) && self.runs()[k]
                        == e,
                None => none_after(self.runs(), self.runs().len() as int, status, pos as int),
            },
    {
        let n: usize = self.extents.len();
        let mut k: usize = 0;
        while k < n
            invariant
                k <= n,
                n == self.extents@.len(),
                self.wf(),
                none_after(self.runs(), k as int, status, pos as int),
            decreases n - k,
        {
            let e: Extent = self.extents[k];
            assert(e == self.runs()[k as int]);
            if e.status == status && e.end() > pos {
                assert(is_next_run(self.runs(), k as int, status, pos as int));
                return Some(e);
            }
            k = k + 1;
        }
        None
    }

    pub fn bytes_with(&self, status: SectorStatus) -> (r: u64)
        requires
            self.wf(),
        ensures
            r == tally(self@, status),
    {
        let n: usize = self.extents.len();
        let mut k: usize = 0;
        let mut sum: u64 = 0;
        let ghost mut at: int = 0;
        assert(self@.take(0) =~= Seq::<SectorStatus>::empty());
        while k < n
            invariant
                k <= n,
                n == self.extents@.len(),
                self.wf(),
                at == runs_end(self.runs().take(k as int)),
                0 <= at <= self.size,
                sum == tally(self@.take(at), status),
                sum <= at,
            decreases n - k,
        {
            let e: Extent = self.extents[k];
            proof {
                assert(e == self.runs()[k as int]);
                if k > 0 {
                    assert(self.runs()[k - 1].spec_end() == self.runs()[k as int].start);
                }
                assert(self.runs().take(k + 1).last() == e);
                if k < n - 1 {
                    lemma_runs_sorted(self.runs(), k as int, n - 1);
                }
                assert forall|i: int| e.start <= i < e.spec_end() implies #[trigger] self@[i]
                    == e.status by {
                    lemma_status_in_run(self.runs(), k as int, i);
                }
                lemma_tally_run(self@, e.start as int, e.spec_end(), e.status, status);
                at = e.spec_end();
            }
            if e.status == status {
                sum = sum + e.len;
            }
            k = k + 1;
        }
        assert(self.runs().take(n as int) =~= self.runs());
        assert(self@.take(at) =~= self@);
        sum
    }

    /// How many separate areas have the given status.
    pub fn count_with(&self, status: SectorStatus) -> (r: u64)
        ensures
            r == runs_with(self.runs(), status).len(),
    {
        self.ranges(status).len() as u64
    }

    /// True when nothing readable remains untried (bad sectors may remain).
    pub fn is_finished(&self) -> (r: bool)
        requires
            self.wf(),
        ensures
            r == all_settled(self@),
    {
        let n: usize = self.extents.len();
        let mut k: usize = 0;
        while k < n
            invariant
                k <= n,
                n == self.extents@.len(),
                self.wf(),
                forall|j: int| 0 <= j < k ==> settled((#[trigger] self.runs()[j]).status),
            decreases n - k,
        {
            let e: Extent = self.extents[k];
            assert(e == self.runs()[k as int]);
            if e.status != SectorStatus::Bad && e.status != SectorStatus::Rescued {
                proof {
                    lemma_status_in_run(self.runs(), k as int, e.start as int);
                    if k < n - 1 {
                        lemma_runs_sorted(self.runs(), k as int, n - 1);
                    }
                    assert(!settled(self@[e.start as int]));
                }
                return false;
            }
            k = k + 1;
        }
        proof {
            assert forall|i: int| 0 <= i < self@.len() implies settled(#[trigger] self@[i]) by {
                let j = lemma_run_of(self.runs(), i);
            }
        }
        true
    }

    /// Index of the first extent that ends after `pos`.
    fn first_after(&self, pos: u64) -> (r: usize)
        requires
            self.wf(),
        ensures
            r <= self.runs().len(),
            forall|j: int| 0 <= j < r ==> (#[trigger] self.runs()[j]).spec_end() <= pos,
            forall|j: int| r <= j < self.runs().len() ==> (#[trigger] self.runs()[j]).spec_end() > pos,
    {
        let mut lo: usize = 0;
        let mut hi: usize = self.extents.len();
        while lo < hi
            invariant
                lo <= hi <= self.runs().len(),
                self.wf(),
                forall|j: int| 0 <= j < lo ==> (#[trigger] self.runs()[j]).spec_end() <= pos,
                forall|j: int|
                    hi <= j < self.runs().len() ==> (#[trigger] self.runs()[j]).spec_end() > pos,
            decreases hi - lo,
        {
            let mid: usize = lo + (hi - lo) / 2;
            let e: Extent = self.extents[mid];
            assert(e == self.runs()[mid as int]);
            proof {
                assert forall|j: int| 0 <= j < self.runs().len() implies (j < mid ==> (
                #[trigger] self.runs()[j]).spec_end() <= e.start) && (j > mid ==> e.spec_end()
                    <= self.runs()[j].start) by {
                    if j < mid {
                        lemma_runs_sorted(self.runs(), j, mid as int);
                    } else if j > mid {
                        lemma_runs_sorted(self.runs(), mid as int, j);
                    }
                }
            }
            if e.end() <= pos {
                lo = mid + 1;
            } else {
                hi = mid;
            }
        }
        lo
    }

    /// Status at a byte offset (None past the end).
    pub fn status_at(&self, pos: u64) -> (r: Option<SectorStatus>)
        requires
            self.wf(),
        ensures
            r == if pos < self.size {
                Some(self@[pos as int])
            } else {
                None
            },
    {
        let i: usize = self.first_after(pos);
        if i < self.extents.len() {
            let e: Extent = self.extents[i];
            assert(e == self.runs()[i as int]);
            proof {
                if i > 0 {
                    assert(self.runs()[i - 1].spec_end() == self.runs()[i as int].start);
                }
                if i < self.runs().len() - 1 {
                    lemma_runs_sorted(self.runs(), i as int, self.runs().len() - 1);
                }
            }
            if e.start <= pos {
                proof {
                    lemma_status_in_run(self.runs(), i as int, pos as int);
                }
                return Some(e.status);
            }
        }
        None
    }

    /// Does `[start, start + len)` overlap anything that is not rescued?
    pub fn overlaps_non_rescued(&self, start: u64, len: u64) -> (r: bool)
        requires
            self.wf(),
        ensures
            r <==> exists|i: int|
                start <= i < start + len && i < self.size && #[trigger] self@[i]
                    != SectorStatus::Rescued,
    {
        let end0: u64 = start.saturating_add(len);
        let end: u64 = if end0 < self.size {
            end0
        } else {
            self.size
        };
        if start >= end {
            return false;
        }
        let n: usize = self.extents.len();
        let mut k: usize = self.first_after(start);
        let ghost k0 = k as int;
        while k < n
            invariant
                n == self.extents@.len(),
                k0 <= k <= n,
                self.wf(),
                start < end <= self.size,
                end as int == if start + len < self.size {
                    start + len
                } else {
                    self.size as int
                },
                forall|j: int| 0 <= j < k0 ==> (#[trigger] self.runs()[j]).spec_end() <= start,
                forall|j: int|
                    k0 <= j < n ==> (#[trigger] self.runs()[j]).spec_end() > start,
                forall|j: int|
                    k0 <= j < k ==> (#[trigger] self.runs()[j]).status == SectorStatus::Rescued,
            decreases n - k,
        {
            let e: Extent = self.extents[k];
            assert(e == self.runs()[k as int]);
            if e.start >= end {
                proof {
                    assert forall|i: int| start <= i < end implies #[trigger] self@[i]
                        == SectorStatus::Rescued by {
                        let j = lemma_run_of(self.runs(), i);
                        if j >= k {
                            if j > k {
                                lemma_runs_sorted(self.runs(), k as int, j);
                            }
                        }
                    }
                }
                return false;
            }
            if e.status != SectorStatus::Rescued {
                proof {
                    let i = if e.start < start {
                        start as int
                    } else {
                        e.start as int
                    };
                    lemma_status_in_run(self.runs(), k as int, i);
                    assert(self@[i] != SectorStatus::Rescued);
                }
                return true;
            }
            k = k + 1;
        }
        proof {
            assert forall|i: int| start <= i < end implies #[trigger] self@[i]
                == SectorStatus::Rescued by {
                let j = lemma_run_of(self.runs(), i);
            }
        }
        false
    }
}

/// None of the first `n` runs has the status `st` and ends after `pos`.
pub open spec fn none_after(s: Seq<Extent>, n: int, st: SectorStatus, pos: int) -> bool {
    forall|j: int| 0 <= j < n ==> (#[trigger] s[j]).status != st || s[j].spec_end() <= pos
}

/// Run `k` is the first one that has the status `st` and ends after `pos`.
pub open spec fn is_next_run(s: Seq<Extent>, k: int, st: SectorStatus, pos: int) -> bool {
    &&& 0 <= k < s.len()
    &&& s[k].status == st
    &&& s[k].spec_end() > pos
    &&& none_after(s, k, st, pos)
}

/// A status that no further pass but a retry changes.
pub open spec fn settled(s: SectorStatus) -> bool {
    s == SectorStatus::Bad || s == SectorStatus::Rescued
}

/// Every byte is either rescued or known to be bad.
pub open spec fn all_settled(s: Seq<SectorStatus>) -> bool {
    forall|i: int| 0 <= i < s.len() ==> settled(#[trigger] s[i])
}

/// A run adds its length to the tally of its own status, and to no other.
proof fn lemma_tally_run(
    s: Seq<SectorStatus>,
    a: int,
    b: int,
    run: SectorStatus,
    st: SectorStatus,
)
    requires
        0 <= a <= b <= s.len(),
        forall|i: int| a <= i < b ==> #[trigger] s[i] == run,
    ensures
        tally(s.take(b), st) == tally(s.take(a), st) + if run == st {
            b - a
        } else {
            0
        },
    decreases b - a,
{
    if a < b {
        lemma_tally_run(s, a, b - 1, run, st);
        assert(s.take(b).drop_last() =~= s.take(b - 1));
        assert(s.take(b).last() == s[b - 1]);
    }
}

/// Append a run, merging it into the last one when the status is the same.
fn push_coalesced(out: &mut Vec<Extent>, e: Extent)
    requires
        is_run_list(old(out)@),
        runs_end(old(out)@) == e.start,
        e.spec_end() <= u64::MAX,
    ensures
        is_run_list(final(out)@),
        runs_end(final(out)@) == e.spec_end(),
        forall|i: int|
            0 <= i < e.spec_end() ==> #[trigger] status_in(final(out)@, i) == if i < e.start {
                status_in(old(out)@, i)
            } else {
                e.status
            },
{
    if e.len == 0 {
        return ;
    }
    let n: usize = out.len();
    if n > 0 {
        let last: Extent = out[n - 1];
        if last.status == e.status && last.end() == e.start {
            let ghost before = out@;
            out.set(n - 1, Extent { start: last.start, len: last.len + e.len, status: last.status });
            proof {
                assert(out@.drop_last() =~= before.drop_last());
                lemma_run_prefix(before);
            }
            return ;
        }
    }
    let ghost before = out@;
    out.push(e);
    proof {
        assert(out@.drop_last() =~= before);
    }
}

/// `e` is a maximal stretch of bytes of `v` with one status.
pub open spec fn is_area(v: Seq<SectorStatus>, e: Extent) -> bool {
    &&& e.len > 0
    &&& e.spec_end() <= v.len()
    &&& forall|i: int| e.start <= i < e.spec_end() ==> #[trigger] v[i] == e.status
    &&& e.start > 0 ==> v[e.start - 1] != e.status
    &&& e.spec_end() < v.len() ==> v[e.spec_end()] != e.status
}

/// The extents of a map are maximal stretches of its view.
pub proof fn lemma_run_is_area(m: RescueMap, k: int)
    requires
        m.wf(),
        0 <= k < m.runs().len(),
    ensures
        is_area(m@, m.runs()[k]),
{
    let s = m.runs();
    let e = s[k];
    if k < s.len() - 1 {
        lemma_runs_sorted(s, k, s.len() - 1);
        assert(s[k].spec_end() == s[k + 1].start);
        lemma_status_in_run(s, k + 1, e.spec_end());
    }
    assert forall|i: int| e.start <= i < e.spec_end() implies #[trigger] m@[i] == e.status by {
        lemma_status_in_run(s, k, i);
    }
    if k > 0 {
        assert(s[k - 1].spec_end() == s[k].start);
        lemma_status_in_run(s, k - 1, e.start - 1);
    }
}

/// `r` lists, in order, stretches that hold every byte of `v` with the
/// status `st`, and no other byte.
pub open spec fn lists_areas(v: Seq<SectorStatus>, r: Seq<Extent>, st: SectorStatus) -> bool {
    &&& forall|k: int| 0 <= k < r.len() ==> is_area(v, #[trigger] r[k]) && r[k].status == st
    &&& forall|a: int, b: int|
        0 <= a < b < r.len() ==> (#[trigger] r[a]).spec_end() <= (#[trigger] r[b]).start
    &&& forall|i: int|
        0 <= i < v.len() && #[trigger] v[i] == st ==> exists|k: int|
            0 <= k < r.len() && (#[trigger] r[k]).start <= i < r[k].spec_end()
}

/// The runs of `s` with the status `st`.
pub open spec fn runs_with(s: Seq<Extent>, st: SectorStatus) -> Seq<Extent> {
    s.filter(|e: Extent| e.status == st)
}

proof fn lemma_runs_with_step(s: Seq<Extent>, st: SectorStatus)
    requires
        s.len() > 0,
    ensures
        runs_with(s, st) == if s.last().status == st {
            runs_with(s.drop_last(), st).push(s.last())
        } else {
            runs_with(s.drop_last(), st)
        },
{
    reveal(Seq::filter);
}

/// A run that is listed is a run of the map with that status.
proof fn lemma_listed_is_run(s: Seq<Extent>, st: SectorStatus, k: int) -> (j: int)
    requires
        0 <= k < runs_with(s, st).len(),
    ensures
        0 <= j < s.len(),
        s[j] == runs_with(s, st)[k],
        s[j].status == st,
    decreases s.len(),
{
    if s.len() == 0 {
        reveal(Seq::filter);
        0
    } else {
        lemma_runs_with_step(s, st);
        if k < runs_with(s.drop_last(), st).len() {
            lemma_listed_is_run(s.drop_last(), st, k)
        } else {
            s.len() - 1
        }
    }
}

/// A run of the map with that status is listed.
proof fn lemma_run_is_listed(s: Seq<Extent>, st: SectorStatus, j: int) -> (k: int)
    requires
        0 <= j < s.len(),
        s[j].status == st,
    ensures
        0 <= k < runs_with(s, st).len(),
        s[j] == runs_with(s, st)[k],
    decreases s.len(),
{
    lemma_runs_with_step(s, st);
    if j < s.len() - 1 {
        lemma_run_is_listed(s.drop_last(), st, j)
    } else {
        runs_with(s, st).len() - 1
    }
}

/// Runs are listed in order.
proof fn lemma_listed_sorted(s: Seq<Extent>, st: SectorStatus, a: int, b: int)
    requires
        is_run_list(s),
        0 <= a < b < runs_with(s, st).len(),
    ensures
        runs_with(s, st)[a].spec_end() <= runs_with(s, st)[b].start,
    decreases s.len(),
{
    if s.len() == 0 {
        reveal(Seq::filter);
    } else {
        lemma_runs_with_step(s, st);
        lemma_run_prefix(s);
        let t = s.drop_last();
        if b < runs_with(t, st).len() {
            lemma_listed_sorted(t, st, a, b);
        } else {
            let j = lemma_listed_is_run(t, st, a);
            lemma_runs_sorted(s, j, s.len() - 1);
        }
    }
}

/// What [`RescueMap::ranges`] returns covers the bytes with that status.
pub proof fn lemma_ranges_list_areas(m: RescueMap, st: SectorStatus)
    requires
        m.wf(),
    ensures
        lists_areas(m@, runs_with(m.runs(), st), st),
{
    let s = m.runs();
    let f = runs_with(s, st);
    assert forall|k: int| 0 <= k < f.len() implies is_area(m@, #[trigger] f[k]) && f[k].status
        == st by {
        let j = lemma_listed_is_run(s, st, k);
        lemma_run_is_area(m, j);
    }
    assert forall|a: int, b: int| 0 <= a < b < f.len() implies (#[trigger] f[a]).spec_end() <= (
    #[trigger] f[b]).start by {
        lemma_listed_sorted(s, st, a, b);
    }
    assert forall|i: int| 0 <= i < m@.len() && #[trigger] m@[i] == st implies exists|k: int|
        0 <= k < f.len() && (#[trigger] f[k]).start <= i < f[k].spec_end() by {
        let j = lemma_run_of(s, i);
        let k = lemma_run_is_listed(s, st, j);
        assert(f[k].start <= i < f[k].spec_end());
    }
}

/// The tally of a status is zero exactly when no byte has it.
pub proof fn lemma_tally_zero(v: Seq<SectorStatus>, st: SectorStatus)
    ensures
        tally(v, st) == 0 <==> forall|i: int| 0 <= i < v.len() ==> #[trigger] v[i] != st,
        tally(v, st) <= v.len(),
    decreases v.len(),
{
    if v.len() > 0 {
        let w = v.drop_last();
        lemma_tally_zero(w, st);
        if tally(v, st) == 0 {
            assert forall|i: int| 0 <= i < v.len() implies #[trigger] v[i] != st by {
                if i < w.len() {
                    assert(w[i] == v[i]);
                }
            }
        } else if v.last() != st {
            let i = choose|i: int| 0 <= i < w.len() && #[trigger] w[i] == st;
            assert(v[i] == st);
        } else {
            assert(v[v.len() - 1] == st);
        }
    }
}

/// Bytes that give up a status lower its tally.
pub proof fn lemma_tally_drops(a: Seq<SectorStatus>, b: Seq<SectorStatus>, st: SectorStatus)
    requires
        a.len() == b.len(),
        forall|i: int| 0 <= i < a.len() && #[trigger] b[i] == st ==> a[i] == st,
    ensures
        tally(b, st) <= tally(a, st),
        (exists|i: int| 0 <= i < a.len() && a[i] == st && #[trigger] b[i] != st) ==> tally(b, st)
            < tally(a, st),
    decreases a.len(),
{
    if a.len() > 0 {
        let n = a.len() - 1;
        let c = a.drop_last();
        let d = b.drop_last();
        assert forall|i: int| 0 <= i < c.len() && #[trigger] d[i] == st implies c[i] == st by {
            assert(b[i] == st);
        }
        lemma_tally_drops(c, d, st);
        assert(b[n] == b.last() && a[n] == a.last());
        if exists|i: int| 0 <= i < a.len() && a[i] == st && #[trigger] b[i] != st {
            let i = choose|i: int| 0 <= i < a.len() && a[i] == st && #[trigger] b[i] != st;
            if i < n {
                assert(c[i] == st && d[i] != st);
            }
        }
    }
}

/// If none of the first `n` runs that end after `pos` has the status `st`,
/// no byte between `pos` and the end of those runs has it.
pub proof fn lemma_none_after(m: RescueMap, n: int, st: SectorStatus, pos: int)
    requires
        m.wf(),
        0 <= n <= m.runs().len(),
        none_after(m.runs(), n, st, pos),
    ensures
        forall|i: int|
            0 <= i && pos <= i < if n < m.runs().len() {
                m.runs()[n].start as int
            } else {
                m.size as int
            } ==> #[trigger] m@[i] != st,
{
    let s = m.runs();
    let bound = if n < s.len() {
        s[n].start as int
    } else {
        m.size as int
    };
    if n < s.len() - 1 {
        lemma_runs_sorted(s, n, s.len() - 1);
    }
    assert forall|i: int| 0 <= i && pos <= i < bound implies #[trigger] m@[i] != st by {
        let k = lemma_run_of(s, i);
        if k > n {
            lemma_runs_sorted(s, n, k);
        }
        assert(s[k].status != st || s[k].spec_end() <= pos);
    }
}

/// No run from the `n`-th on has the status `st` and starts before `pos`.
pub open spec fn none_before(s: Seq<Extent>, n: int, st: SectorStatus, pos: int) -> bool {
    forall|j: int| n <= j < s.len() ==> (#[trigger] s[j]).status != st || s[j].start >= pos
}

/// If no run from the `n`-th on that starts before `pos` has the status
/// `st`, no byte between the end of the runs before and `pos` has it.
pub proof fn lemma_none_before(m: RescueMap, n: int, st: SectorStatus, pos: int)
    requires
        m.wf(),
        0 <= n <= m.runs().len(),
        none_before(m.runs(), n, st, pos),
    ensures
        forall|i: int|
            (if n > 0 {
                m.runs()[n - 1].spec_end()
            } else {
                0
            }) <= i < pos && i < m.size ==> #[trigger] m@[i] != st,
{
    let s = m.runs();
    let from = if n > 0 {
        s[n - 1].spec_end()
    } else {
        0
    };
    assert forall|i: int| from <= i < pos && i < m.size implies #[trigger] m@[i] != st by {
        let k = lemma_run_of(s, i);
        if k < n - 1 {
            lemma_runs_sorted(s, k, n - 1);
        }
        assert(s[k].status != st || s[k].start >= pos);
    }
}

} // verus!
