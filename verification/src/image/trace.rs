//! The reads that imaging makes. Every pass reads in an order that the map
//! and the outcomes of its earlier reads fix; here that order is told as
//! predicates over the log of a pass, with what the log makes of the map.

use super::progress::sector_start;
use super::source::{SectorSource, SourceError};
use super::sweep::{all_tried, cluster_len, is_forward_cluster, is_reverse_cluster};
use super::{phase_due, ImagingOptions};
use crate::map::{marked, Phase, SectorStatus};
use vstd::prelude::*;

verus! {

/// One read of `[pos, pos + len)`, and whether it succeeded.
pub struct Attempt {
    pub pos: int,
    pub len: int,
    pub ok: bool,
}

impl Attempt {
    pub open spec fn end(self) -> int {
        self.pos + self.len
    }
}

/// The map after a read; `fail` is what a failed one makes of its range.
pub open spec fn noted(m: Seq<SectorStatus>, a: Attempt, fail: SectorStatus) -> Seq<SectorStatus> {
    marked(
        m,
        a.pos,
        a.len,
        if a.ok {
            SectorStatus::Rescued
        } else {
            fail
        },
    )
}

/// The map after the reads of a log.
pub open spec fn played(
    m: Seq<SectorStatus>,
    log: Seq<Attempt>,
    fail: SectorStatus,
) -> Seq<SectorStatus>
    decreases log.len(),
{
    if log.len() == 0 {
        m
    } else {
        noted(played(m, log.drop_last(), fail), log.last(), fail)
    }
}

/// How many reads of a log failed.
pub open spec fn failures(log: Seq<Attempt>) -> int
    decreases log.len(),
{
    if log.len() == 0 {
        0
    } else if log.last().ok {
        failures(log.drop_last())
    } else {
        failures(log.drop_last()) + 1
    }
}

/// A counter of errors after `n` more; it stays at its largest value.
pub open spec fn counted(errors: u64, n: int) -> int {
    if errors + n < u64::MAX {
        errors + n
    } else {
        u64::MAX as int
    }
}

/// One more read at the end of a log.
pub proof fn lemma_push(m: Seq<SectorStatus>, log: Seq<Attempt>, a: Attempt, fail: SectorStatus)
    ensures
        played(m, log.push(a), fail) == noted(played(m, log, fail), a, fail),
        failures(log.push(a)) == failures(log) + if a.ok {
            0int
        } else {
            1
        },
        reached(log.push(a)) == a.end(),
        log.push(a).drop_last() == log,
        log.push(a).last() == a,
{
    assert(log.push(a).drop_last() =~= log);
}

/// Failed reads are counted from nothing on.
pub proof fn lemma_failures(log: Seq<Attempt>)
    ensures
        failures(log) >= 0,
    decreases log.len(),
{
    if log.len() > 0 {
        lemma_failures(log.drop_last());
    }
}

/// The read ended as the source promises of it.
pub open spec fn may_end_so<S: SectorSource>(src: S, a: Attempt) -> bool {
    &&& src.readable(a.pos, a.len) ==> a.ok
    &&& src.unreadable(a.pos, a.len) ==> !a.ok
    &&& a.ok ==> a.end() <= src.data().len()
}

/// Every read of the log ended as the source promises of it.
pub open spec fn may_happen<S: SectorSource>(src: S, log: Seq<Attempt>) -> bool {
    forall|j: int| 0 <= j < log.len() ==> may_end_so(src, #[trigger] log[j])
}

/// The read may turn the source `s` into `t`.
pub open spec fn read_step<S: SectorSource>(s: S, a: Attempt, t: S) -> bool {
    exists|before: Seq<u8>, after: Seq<u8>, r: Result<(), SourceError>|
        before.len() == a.len && a.ok == (r is Ok) && #[trigger] s.may_read(
            a.pos,
            before,
            &t,
            after,
            r,
        )
}

/// The reads of the log, one after another, may turn the source `s` into
/// `t`.
pub open spec fn led<S: SectorSource>(s: S, log: Seq<Attempt>, t: S) -> bool
    decreases log.len(),
{
    if log.len() == 0 {
        s == t
    } else {
        exists|mid: S| led(s, log.drop_last(), mid) && #[trigger] read_step(mid, log.last(), t)
    }
}

/// The reads of the log, and one more that could not be written out, may
/// turn the source `s` into `t`.
pub open spec fn led_and_more<S: SectorSource>(s: S, log: Seq<Attempt>, t: S) -> bool {
    exists|mid: S, a: Attempt| #[trigger]
        led(s, log, mid) && a.ok && #[trigger] read_step(mid, a, t)
}

/// One more read at the end of what led to a source.
pub proof fn lemma_led_push<S: SectorSource>(s: S, log: Seq<Attempt>, mid: S, a: Attempt, t: S)
    requires
        led(s, log, mid),
        read_step(mid, a, t),
    ensures
        led(s, log.push(a), t),
{
    let more = log.push(a);
    assert(more.drop_last() =~= log);
    assert(read_step(mid, more.last(), t));
}

/// Where the last read of a log ended.
pub open spec fn reached(log: Seq<Attempt>) -> int {
    if log.len() == 0 {
        0
    } else {
        log.last().end()
    }
}

/// The position that a map with position `at` has after the reads of a log.
pub open spec fn place_after(log: Seq<Attempt>, at: u64) -> int {
    if log.len() == 0 {
        at as int
    } else {
        log.last().pos
    }
}

// Copying.

/// How the copy pass reads.
pub struct CopyPlan {
    pub reverse: bool,
    pub cluster: int,
    pub ss: int,
    /// How far to skip after a first read error.
    pub first_skip: int,
    /// How far to skip at most after further ones.
    pub max_skip: int,
}

pub open spec fn copy_plan(opts: ImagingOptions, ss: int) -> CopyPlan {
    let cluster = cluster_len(opts.cluster_size as int, ss);
    CopyPlan {
        reverse: opts.reverse,
        cluster,
        ss,
        first_skip: if opts.skip_size > cluster {
            opts.skip_size as int
        } else {
            cluster
        },
        max_skip: opts.max_skip_size as int,
    }
}

/// A sweep of the copy pass: where it stands, and how far it skips when the
/// next read fails.
pub struct Sweep {
    pub at: int,
    pub skip: int,
}

/// A sweep begins at an end of the source.
pub open spec fn sweep_start(p: CopyPlan, size: int) -> Sweep {
    Sweep {
        at: if p.reverse {
            size
        } else {
            0
        },
        skip: p.first_skip,
    }
}

/// No non-tried byte lies ahead of a sweep that stands at `at`.
pub open spec fn nothing_ahead(p: CopyPlan, v: Seq<SectorStatus>, at: int) -> bool {
    if p.reverse {
        all_tried(
            v,
            0,
            if at < v.len() {
                at
            } else {
                v.len() as int
            },
        )
    } else {
        all_tried(v, at, v.len() as int)
    }
}

/// A sweep with nothing ahead of it begins anew.
pub open spec fn turned(p: CopyPlan, v: Seq<SectorStatus>, s: Sweep) -> Sweep {
    if nothing_ahead(p, v, s.at) {
        sweep_start(p, v.len() as int)
    } else {
        s
    }
}

/// A sweep goes on behind what it read, and skips after an error: twice as
/// far after each further one, up to the cap.
pub open spec fn sweep_after(p: CopyPlan, s: Sweep, a: Attempt) -> Sweep {
    if a.ok {
        Sweep {
            at: if p.reverse {
                a.pos
            } else {
                a.end()
            },
            skip: p.first_skip,
        }
    } else {
        Sweep {
            at: if !p.reverse {
                a.end() + s.skip
            } else if a.pos > s.skip {
                a.pos - s.skip
            } else {
                0
            },
            skip: if 2 * s.skip < p.max_skip {
                2 * s.skip
            } else {
                p.max_skip
            },
        }
    }
}

/// The sweep after the reads of a log.
pub open spec fn copy_sweep(p: CopyPlan, m: Seq<SectorStatus>, log: Seq<Attempt>) -> Sweep
    decreases log.len(),
{
    if log.len() == 0 {
        sweep_start(p, m.len() as int)
    } else {
        let before = log.drop_last();
        let v = played(m, before, SectorStatus::NonTrimmed);
        sweep_after(p, turned(p, v, copy_sweep(p, m, before)), log.last())
    }
}

/// The copy pass reads `a` next.
pub open spec fn is_copy_read(p: CopyPlan, v: Seq<SectorStatus>, s: Sweep, a: Attempt) -> bool {
    if p.reverse {
        is_reverse_cluster(v, s.at, p.cluster, p.ss, a.pos, a.len)
    } else {
        is_forward_cluster(v, s.at, p.cluster, a.pos, a.len)
    }
}

/// The log is one of the copy pass.
pub open spec fn is_copy_log(p: CopyPlan, m: Seq<SectorStatus>, log: Seq<Attempt>) -> bool
    decreases log.len(),
{
    log.len() == 0 || {
        let before = log.drop_last();
        let v = played(m, before, SectorStatus::NonTrimmed);
        &&& is_copy_log(p, m, before)
        &&& is_copy_read(p, v, turned(p, v, copy_sweep(p, m, before)), log.last())
    }
}

/// The position that a map has after the reads of a copy pass: where the
/// last one ended, or began when sweeping backwards.
pub open spec fn copy_place(p: CopyPlan, log: Seq<Attempt>, at: u64) -> int {
    if p.reverse || log.len() == 0 {
        place_after(log, at)
    } else {
        reached(log)
    }
}

// Trimming.

/// The first byte with the status `st` from `i` on, or the end of the map.
pub open spec fn first_with(m: Seq<SectorStatus>, st: SectorStatus, i: int) -> int
    decreases m.len() - i,
{
    if i < 0 || i >= m.len() {
        m.len() as int
    } else if m[i] == st {
        i
    } else {
        first_with(m, st, i + 1)
    }
}

/// The first byte without the status `st` from `i` on, or the end of the
/// map.
pub open spec fn first_without(m: Seq<SectorStatus>, st: SectorStatus, i: int) -> int
    decreases m.len() - i,
{
    if i < 0 || i >= m.len() {
        m.len() as int
    } else if m[i] != st {
        i
    } else {
        first_without(m, st, i + 1)
    }
}

/// The first byte with a status, told by what lies before it.
pub proof fn lemma_first_with(m: Seq<SectorStatus>, st: SectorStatus, i: int, p: int)
    requires
        0 <= i <= p <= m.len(),
        forall|j: int| i <= j < p ==> #[trigger] m[j] != st,
        p < m.len() ==> m[p] == st,
    ensures
        first_with(m, st, i) == p,
    decreases p - i,
{
    if i < p {
        assert(m[i] != st);
        lemma_first_with(m, st, i + 1, p);
    }
}

/// The first byte without a status, told by what lies before it.
pub proof fn lemma_first_without(m: Seq<SectorStatus>, st: SectorStatus, i: int, p: int)
    requires
        0 <= i <= p <= m.len(),
        forall|j: int| i <= j < p ==> #[trigger] m[j] == st,
        p < m.len() ==> m[p] != st,
    ensures
        first_without(m, st, i) == p,
    decreases p - i,
{
    if i < p {
        assert(m[i] == st);
        lemma_first_without(m, st, i + 1, p);
    }
}

/// Where the trim pass stands: the map, what is left of the block that is
/// trimmed, and whether it is trimmed from its end now.
pub struct Trim {
    pub m: Seq<SectorStatus>,
    pub lo: int,
    pub hi: int,
    pub back: bool,
}

/// When nothing is left of a block, the first one of those still to be
/// trimmed is taken up.
pub open spec fn taken_up(t: Trim) -> Trim {
    if t.lo < t.hi {
        t
    } else {
        let lo = first_with(t.m, SectorStatus::NonTrimmed, 0);
        Trim {
            m: t.m,
            lo,
            hi: first_without(t.m, SectorStatus::NonTrimmed, lo),
            back: false,
        }
    }
}

/// The trim pass reads `a` next: the first sector of what is left of the
/// block, or, once one failed, the last sector.
pub open spec fn is_trim_read(t: Trim, ss: int, a: Attempt) -> bool {
    &&& t.lo < t.hi
    &&& if t.back {
        let down = sector_start(t.hi - 1, ss);
        &&& a.pos == if down > t.lo {
            down
        } else {
            t.lo
        }
        &&& a.end() == t.hi
    } else {
        &&& a.pos == t.lo
        &&& a.len == if ss < t.hi - t.lo {
            ss
        } else {
            t.hi - t.lo
        }
    }
}

/// A block is trimmed from its start until a sector fails, then from its
/// end until one fails; what remains in between is left for scraping.
pub open spec fn trim_after(t: Trim, a: Attempt) -> Trim {
    let m = noted(t.m, a, SectorStatus::Bad);
    if !t.back {
        Trim { m, lo: a.end(), hi: t.hi, back: !a.ok }
    } else if a.ok {
        Trim { m, lo: t.lo, hi: a.pos, back: true }
    } else {
        Trim {
            m: if a.pos > t.lo {
                marked(m, t.lo, a.pos - t.lo, SectorStatus::NonScraped)
            } else {
                m
            },
            lo: a.pos,
            hi: a.pos,
            back: true,
        }
    }
}

/// Where the trim pass stands after the reads of a log.
pub open spec fn trim_state(m: Seq<SectorStatus>, log: Seq<Attempt>) -> Trim
    decreases log.len(),
{
    if log.len() == 0 {
        Trim { m, lo: 0, hi: 0, back: false }
    } else {
        trim_after(taken_up(trim_state(m, log.drop_last())), log.last())
    }
}

/// The log is one of the trim pass.
pub open spec fn is_trim_log(m: Seq<SectorStatus>, ss: int, log: Seq<Attempt>) -> bool
    decreases log.len(),
{
    log.len() == 0 || {
        let before = log.drop_last();
        &&& is_trim_log(m, ss, before)
        &&& is_trim_read(taken_up(trim_state(m, before)), ss, log.last())
    }
}

// Scraping and retrying.

/// No byte of `[a, b)` has the status `st`.
pub open spec fn none_within(m: Seq<SectorStatus>, st: SectorStatus, a: int, b: int) -> bool {
    forall|i: int| a <= i < b ==> #[trigger] m[i] != st
}

/// All bytes of `[a, b)` have the status `st`.
pub open spec fn all_within(m: Seq<SectorStatus>, st: SectorStatus, a: int, b: int) -> bool {
    forall|i: int| a <= i < b ==> #[trigger] m[i] == st
}

/// `a` is the next sector with the status `st` from `from` on; sectors are
/// counted from the start of a block.
pub open spec fn is_next_sector(
    m: Seq<SectorStatus>,
    st: SectorStatus,
    ss: int,
    from: int,
    a: Attempt,
) -> bool {
    &&& 0 <= from <= a.pos
    &&& 0 < a.len <= ss
    &&& a.end() <= m.len()
    &&& none_within(m, st, from, a.pos)
    &&& all_within(m, st, a.pos, a.end())
    &&& a.len == ss || a.end() == m.len() || m[a.end()] != st
}

/// The log reads the sectors with the status `st` one after another.
pub open spec fn is_sector_log(
    m: Seq<SectorStatus>,
    st: SectorStatus,
    ss: int,
    log: Seq<Attempt>,
) -> bool
    decreases log.len(),
{
    log.len() == 0 || {
        let before = log.drop_last();
        &&& is_sector_log(m, st, ss, before)
        &&& is_next_sector(m, st, ss, reached(before), log.last())
    }
}

/// `a` is the last sector with the status `st` before `to`, in a block that
/// starts at `start`.
pub open spec fn is_last_sector(
    m: Seq<SectorStatus>,
    st: SectorStatus,
    ss: int,
    to: int,
    a: Attempt,
    start: int,
) -> bool {
    &&& 0 <= start <= a.pos
    &&& 0 < a.len <= ss
    &&& a.end() <= to <= m.len()
    &&& none_within(m, st, a.end(), to)
    &&& all_within(m, st, start, a.end())
    &&& start == 0 || m[start - 1] != st
    &&& (a.pos - start) % ss == 0
}

/// Where the last read of a log that goes backwards began.
pub open spec fn lowest(log: Seq<Attempt>, size: int) -> int {
    if log.len() == 0 {
        size
    } else {
        log.last().pos
    }
}

/// The log reads the sectors with the status `st` from the last one down.
pub open spec fn is_backward_log(
    m: Seq<SectorStatus>,
    st: SectorStatus,
    ss: int,
    log: Seq<Attempt>,
) -> bool
    decreases log.len(),
{
    log.len() == 0 || {
        let before = log.drop_last();
        &&& is_backward_log(m, st, ss, before)
        &&& exists|start: int| #[trigger]
            is_last_sector(m, st, ss, lowest(before, m.len() as int), log.last(), start)
    }
}

/// The log is one of a retry pass.
pub open spec fn is_retry_log(
    m: Seq<SectorStatus>,
    ss: int,
    reverse: bool,
    log: Seq<Attempt>,
) -> bool {
    if reverse {
        is_backward_log(m, SectorStatus::Bad, ss, log)
    } else {
        is_sector_log(m, SectorStatus::Bad, ss, log)
    }
}

/// A retry pass with this log has read every bad sector.
pub open spec fn retried_all(m: Seq<SectorStatus>, reverse: bool, log: Seq<Attempt>) -> bool {
    if reverse {
        none_within(m, SectorStatus::Bad, 0, lowest(log, m.len() as int))
    } else {
        none_within(m, SectorStatus::Bad, reached(log), m.len() as int)
    }
}

// A whole run.

/// One pass of a run.
pub struct Leg {
    pub phase: Phase,
    pub log: Seq<Attempt>,
}

/// The map after a pass.
pub open spec fn leg_map(m: Seq<SectorStatus>, leg: Leg) -> Seq<SectorStatus> {
    match leg.phase {
        Phase::Copying => played(m, leg.log, SectorStatus::NonTrimmed),
        Phase::Trimming => trim_state(m, leg.log).m,
        _ => played(m, leg.log, SectorStatus::Bad),
    }
}

/// The map after the passes of a run.
pub open spec fn legs_map(m: Seq<SectorStatus>, legs: Seq<Leg>) -> Seq<SectorStatus>
    decreases legs.len(),
{
    if legs.len() == 0 {
        m
    } else {
        leg_map(legs_map(m, legs.drop_last()), legs.last())
    }
}

/// How many of the passes read bad sectors again.
pub open spec fn retries_in(legs: Seq<Leg>) -> int
    decreases legs.len(),
{
    if legs.len() == 0 {
        0
    } else if legs.last().phase == Phase::Retrying {
        retries_in(legs.drop_last()) + 1
    } else {
        retries_in(legs.drop_last())
    }
}

/// How many reads of the passes failed.
pub open spec fn legs_failures(legs: Seq<Leg>) -> int
    decreases legs.len(),
{
    if legs.len() == 0 {
        0
    } else {
        legs_failures(legs.drop_last()) + failures(legs.last().log)
    }
}

/// The position that a map has after the passes.
pub open spec fn legs_place(opts: ImagingOptions, ss: int, legs: Seq<Leg>, at: u64) -> int
    decreases legs.len(),
{
    if legs.len() == 0 {
        at as int
    } else if legs.last().log.len() == 0 {
        legs_place(opts, ss, legs.drop_last(), at)
    } else if legs.last().phase == Phase::Copying {
        copy_place(copy_plan(opts, ss), legs.last().log, at)
    } else {
        place_after(legs.last().log, at)
    }
}

/// The log of a pass over the map `m` is one of its phase; `retries` counts
/// the retry passes up to this one, of which every second goes backwards.
pub open spec fn is_leg(
    opts: ImagingOptions,
    ss: int,
    m: Seq<SectorStatus>,
    retries: int,
    leg: Leg,
) -> bool {
    match leg.phase {
        Phase::Copying => is_copy_log(copy_plan(opts, ss), m, leg.log),
        Phase::Trimming => is_trim_log(m, ss, leg.log),
        Phase::Scraping => is_sector_log(m, SectorStatus::NonScraped, ss, leg.log),
        Phase::Retrying => is_retry_log(m, ss, retries % 2 == 0, leg.log),
        Phase::Finished => false,
    }
}

/// The pass ran to its end.
pub open spec fn is_whole_leg(m: Seq<SectorStatus>, retries: int, leg: Leg) -> bool {
    match leg.phase {
        Phase::Copying => super::passes::none_left(leg_map(m, leg), SectorStatus::NonTried),
        Phase::Trimming => super::passes::none_left(leg_map(m, leg), SectorStatus::NonTrimmed),
        Phase::Scraping => super::passes::none_left(leg_map(m, leg), SectorStatus::NonScraped),
        Phase::Retrying => retried_all(m, retries % 2 == 0, leg.log),
        Phase::Finished => true,
    }
}

/// The passes are those of a run over the map `m`: each is of the phase
/// that the map is due for, and follows one that ran to its end.
pub open spec fn is_run(
    opts: ImagingOptions,
    ss: int,
    m: Seq<SectorStatus>,
    legs: Seq<Leg>,
) -> bool
    decreases legs.len(),
{
    legs.len() == 0 || {
        let before = legs.drop_last();
        let v = legs_map(m, before);
        &&& is_run(opts, ss, m, before)
        &&& ran_through(m, before)
        &&& legs.last().phase == phase_due(v, retries_in(before) < opts.retry_passes)
        &&& is_leg(opts, ss, v, retries_in(legs), legs.last())
    }
}

/// The last pass ran to its end.
pub open spec fn ran_through(m: Seq<SectorStatus>, legs: Seq<Leg>) -> bool {
    legs.len() == 0 || is_whole_leg(
        legs_map(m, legs.drop_last()),
        retries_in(legs),
        legs.last(),
    )
}

/// The phase that a map has after the passes.
pub open spec fn legs_phase(legs: Seq<Leg>, phase: Phase) -> Phase {
    if legs.len() == 0 {
        phase
    } else {
        legs.last().phase
    }
}

/// Every read of the passes ended as the source promises of it.
pub open spec fn legs_may_happen<S: SectorSource>(src: S, legs: Seq<Leg>) -> bool {
    forall|k: int| 0 <= k < legs.len() ==> may_happen(src, (#[trigger] legs[k]).log)
}

/// The reads of the passes, one after another, may turn the source `s` into
/// `t`.
pub open spec fn legs_led<S: SectorSource>(s: S, legs: Seq<Leg>, t: S) -> bool
    decreases legs.len(),
{
    if legs.len() == 0 {
        s == t
    } else {
        exists|mid: S|
            legs_led(s, legs.drop_last(), mid) && #[trigger] led(mid, legs.last().log, t)
    }
}

/// The reads of the passes, and one more that could not be written out, may
/// turn the source `s` into `t`.
pub open spec fn legs_led_and_more<S: SectorSource>(s: S, legs: Seq<Leg>, t: S) -> bool {
    legs.len() > 0 && exists|mid: S| #[trigger]
        legs_led(s, legs.drop_last(), mid) && led_and_more(mid, legs.last().log, t)
}

} // verus!
