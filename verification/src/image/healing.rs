//! Sectors that heal: how often injected faults make reads fail, and that
//! the retry passes rescue what heals in time.

use super::laws::{lemma_copying_avoids, lemma_sectors_avoid, lemma_trimming_avoids};
use super::source::{faulted, used_up, BadRegion, FaultySource, MemSource};
use super::trace::{
    copy_plan, is_backward_log, is_last_sector, is_run, is_sector_log, led, legs_led, legs_map,
    lowest, played, ran_through, reached, read_step, retries_in, trim_state, Attempt, Leg,
};
use super::{is_over, ImagingOptions};
use crate::map::{Phase, SectorStatus};
use vstd::prelude::*;

verus! {

/// How many failures the healing regions have left together.
pub open spec fn failures_left(bad: Seq<BadRegion>) -> int
    decreases bad.len(),
{
    if bad.len() == 0 {
        0
    } else {
        failures_left(bad.drop_last()) + match bad.last().remaining_failures {
            Some(n) => n as int,
            None => 0,
        }
    }
}

/// No region that never heals touches `[lo, hi)`.
pub open spec fn spared(bad: Seq<BadRegion>, lo: int, hi: int) -> bool {
    forall|k: int|
        0 <= k < bad.len() && (#[trigger] bad[k]).remaining_failures is None ==> !bad[k].touches(
            lo,
            hi - lo,
        )
}

/// A healing region that is not used up is touched.
spec fn is_costly(bad: Seq<BadRegion>, offset: int, len: int) -> bool {
    exists|k: int|
        0 <= k < bad.len() && #[trigger] bad[k].touches(offset, len)
            && (bad[k].remaining_failures matches Some(n) && n > 0)
}

/// A read uses up failures, and at least one where it fails by a healing
/// region.
proof fn lemma_used_up(bad: Seq<BadRegion>, offset: int, len: int, next: Seq<BadRegion>)
    requires
        used_up(bad, offset, len, next),
    ensures
        0 <= failures_left(next) <= failures_left(bad),
        is_costly(bad, offset, len) ==> failures_left(next) < failures_left(bad),
    decreases bad.len(),
{
    if bad.len() > 0 {
        let b = bad.drop_last();
        let n = next.drop_last();
        assert forall|i: int| 0 <= i < b.len() implies #[trigger] n[i] == b[i].after_read(
            offset,
            len,
        ) by {
            assert(next[i] == bad[i].after_read(offset, len));
        }
        lemma_used_up(b, offset, len, n);
        let l = bad.len() - 1;
        assert(next[l] == bad[l].after_read(offset, len));
        if is_costly(bad, offset, len) {
            let k = choose|k: int|
                0 <= k < bad.len() && #[trigger] bad[k].touches(offset, len)
                    && (bad[k].remaining_failures matches Some(n) && n > 0);
            if k < l {
                assert(b[k].touches(offset, len));
                assert(is_costly(b, offset, len));
            }
        }
    }
}

/// What a read of a memory source with injected faults does.
pub proof fn lemma_faulty_read(s: FaultySource<MemSource>, a: Attempt, t: FaultySource<MemSource>)
    requires
        read_step(s, a, t),
    ensures
        t.inner == s.inner,
        used_up(s.bad@, a.pos, a.len, t.bad@),
        a.ok == (!faulted(s.bad@, a.pos, a.len) && a.end() <= s.inner.data@.len()),
{
}

/// A read that failed lies in `[lo, hi)` and in an input of `size` bytes.
pub open spec fn fails_within(a: Attempt, lo: int, hi: int, size: int) -> bool {
    &&& !a.ok
    &&& lo <= a.pos < a.end() <= hi
    &&& a.end() <= size
}

/// The reads of a log use up failures.
proof fn lemma_log_uses_up(
    s: FaultySource<MemSource>,
    log: Seq<Attempt>,
    t: FaultySource<MemSource>,
    lo: int,
    hi: int,
)
    requires
        led(s, log, t),
        spared(s.bad@, lo, hi),
    ensures
        t.inner == s.inner,
        spared(t.bad@, lo, hi),
        failures_left(t.bad@) <= failures_left(s.bad@),
        (exists|j: int|
            0 <= j < log.len() && fails_within(
                #[trigger] log[j],
                lo,
                hi,
                s.inner.data@.len() as int,
            )) ==> failures_left(t.bad@) < failures_left(s.bad@),
    decreases log.len(),
{
    if log.len() > 0 {
        let before = log.drop_last();
        let a = log.last();
        let mid = choose|mid: FaultySource<MemSource>|
            led(s, before, mid) && #[trigger] read_step(mid, a, t);
        lemma_log_uses_up(s, before, mid, lo, hi);
        lemma_faulty_read(mid, a, t);
        lemma_used_up(mid.bad@, a.pos, a.len, t.bad@);
        assert forall|k: int|
            0 <= k < t.bad@.len() && (
            #[trigger] t.bad@[k]).remaining_failures is None implies !t.bad@[k].touches(
            lo,
            hi - lo,
        ) by {
            assert(t.bad@[k] == mid.bad@[k].after_read(a.pos, a.len));
        }
        let size = s.inner.data@.len() as int;
        if exists|j: int| 0 <= j < log.len() && fails_within(#[trigger] log[j], lo, hi, size) {
            let j = choose|j: int|
                0 <= j < log.len() && fails_within(#[trigger] log[j], lo, hi, size);
            if j < log.len() - 1 {
                assert(before[j] == log[j]);
            } else {
                let k = choose|k: int|
                    0 <= k < mid.bad@.len() && #[trigger] mid.bad@[k].touches(a.pos, a.len)
                        && mid.bad@[k].active();
                assert(mid.bad@[k].touches(lo, hi - lo));
                assert(is_costly(mid.bad@, a.pos, a.len));
            }
        }
    }
}

/// A bad byte that a forward retry pass has passed and not rescued was read
/// in vain.
proof fn lemma_forward_in_vain(m: Seq<SectorStatus>, ss: int, log: Seq<Attempt>, i: int)
    requires
        is_sector_log(m, SectorStatus::Bad, ss, log),
        0 <= i < m.len(),
        i < reached(log),
        m[i] == SectorStatus::Bad,
        played(m, log, SectorStatus::Bad)[i] != SectorStatus::Rescued,
    ensures
        exists|j: int|
            0 <= j < log.len() && fails_within(
                #[trigger] log[j],
                i - ss + 1,
                i + ss,
                m.len() as int,
            ),
    decreases log.len(),
{
    let before = log.drop_last();
    let a = log.last();
    lemma_played_len(m, before, SectorStatus::Bad);
    if a.pos <= i {
        assert(log[log.len() - 1] == a);
        assert(fails_within(log[log.len() - 1], i - ss + 1, i + ss, m.len() as int));
    } else {
        assert(i < reached(before));
        lemma_forward_in_vain(m, ss, before, i);
        let j = choose|j: int|
            0 <= j < before.len() && fails_within(
                #[trigger] before[j],
                i - ss + 1,
                i + ss,
                m.len() as int,
            );
        assert(log[j] == before[j]);
    }
}

/// A bad byte that a backward retry pass has passed and not rescued was
/// read in vain.
proof fn lemma_backward_in_vain(m: Seq<SectorStatus>, ss: int, log: Seq<Attempt>, i: int)
    requires
        is_backward_log(m, SectorStatus::Bad, ss, log),
        lowest(log, m.len() as int) <= i < m.len(),
        0 <= i,
        m[i] == SectorStatus::Bad,
        played(m, log, SectorStatus::Bad)[i] != SectorStatus::Rescued,
    ensures
        exists|j: int|
            0 <= j < log.len() && fails_within(
                #[trigger] log[j],
                i - ss + 1,
                i + ss,
                m.len() as int,
            ),
    decreases log.len(),
{
    let before = log.drop_last();
    let a = log.last();
    lemma_played_len(m, before, SectorStatus::Bad);
    let start = choose|start: int| #[trigger]
        is_last_sector(m, SectorStatus::Bad, ss, lowest(before, m.len() as int), a, start);
    if i < a.end() {
        assert(log[log.len() - 1] == a);
        assert(fails_within(log[log.len() - 1], i - ss + 1, i + ss, m.len() as int));
    } else {
        assert(i >= lowest(before, m.len() as int));
        lemma_backward_in_vain(m, ss, before, i);
        let j = choose|j: int|
            0 <= j < before.len() && fails_within(
                #[trigger] before[j],
                i - ss + 1,
                i + ss,
                m.len() as int,
            );
        assert(log[j] == before[j]);
    }
}

proof fn lemma_played_len(m: Seq<SectorStatus>, log: Seq<Attempt>, fail: SectorStatus)
    ensures
        played(m, log, fail).len() == m.len(),
    decreases log.len(),
{
    if log.len() > 0 {
        lemma_played_len(m, log.drop_last(), fail);
    }
}

proof fn lemma_trim_len(m: Seq<SectorStatus>, log: Seq<Attempt>)
    ensures
        trim_state(m, log).m.len() == m.len(),
    decreases log.len(),
{
    if log.len() > 0 {
        lemma_trim_len(m, log.drop_last());
    }
}

proof fn lemma_legs_len(m: Seq<SectorStatus>, legs: Seq<Leg>)
    ensures
        legs_map(m, legs).len() == m.len(),
    decreases legs.len(),
{
    if legs.len() > 0 {
        let v = legs_map(m, legs.drop_last());
        let log = legs.last().log;
        lemma_legs_len(m, legs.drop_last());
        lemma_played_len(v, log, SectorStatus::NonTrimmed);
        lemma_played_len(v, log, SectorStatus::Bad);
        lemma_trim_len(v, log);
    }
}

/// Every retry pass that leaves a byte bad uses up a failure.
proof fn lemma_retries_use_up(
    opts: ImagingOptions,
    ss: int,
    s: FaultySource<MemSource>,
    m: Seq<SectorStatus>,
    legs: Seq<Leg>,
    t: FaultySource<MemSource>,
    i: int,
)
    requires
        ss > 0,
        is_run(opts, ss, m, legs),
        ran_through(m, legs),
        legs_led(s, legs, t),
        0 <= i < m.len() <= s.inner.data@.len(),
        spared(s.bad@, i - ss + 1, i + ss),
        legs_map(m, legs)[i] != SectorStatus::Rescued,
    ensures
        t.inner == s.inner,
        spared(t.bad@, i - ss + 1, i + ss),
        failures_left(t.bad@) + retries_in(legs) <= failures_left(s.bad@),
    decreases legs.len(),
{
    if legs.len() > 0 {
        let before = legs.drop_last();
        let leg = legs.last();
        let v = legs_map(m, before);
        lemma_legs_len(m, before);
        if v[i] == SectorStatus::Rescued {
            match leg.phase {
                Phase::Copying => lemma_copying_avoids(copy_plan(opts, ss), v, leg.log, i),
                Phase::Trimming => lemma_trimming_avoids(v, ss, leg.log, i),
                Phase::Scraping => lemma_sectors_avoid(
                    v,
                    SectorStatus::NonScraped,
                    ss,
                    leg.log,
                    i,
                ),
                _ => lemma_sectors_avoid(v, SectorStatus::Bad, ss, leg.log, i),
            }
            assert(false);
        }
        let mid = choose|mid: FaultySource<MemSource>|
            legs_led(s, before, mid) && #[trigger] led(mid, leg.log, t);
        lemma_retries_use_up(opts, ss, s, m, before, mid, i);
        lemma_log_uses_up(mid, leg.log, t, i - ss + 1, i + ss);
        if leg.phase == Phase::Retrying {
            assert(v[i] == SectorStatus::Bad);
            if retries_in(legs) % 2 == 0 {
                lemma_backward_in_vain(v, ss, leg.log, i);
            } else {
                lemma_forward_in_vain(v, ss, leg.log, i);
            }
            let size = m.len() as int;
            let j = choose|j: int|
                0 <= j < leg.log.len() && fails_within(
                    #[trigger] leg.log[j],
                    i - ss + 1,
                    i + ss,
                    size,
                );
            assert(fails_within(
                leg.log[j],
                i - ss + 1,
                i + ss,
                mid.inner.data@.len() as int,
            ));
        }
    }
}

/// Retry passes rescue what heals: where no fault that stays is in reach of
/// a byte, and there are more retry passes than failures left, a finished
/// run has rescued the byte.
pub proof fn lemma_healing_is_rescued(
    opts: ImagingOptions,
    ss: int,
    s: FaultySource<MemSource>,
    m: Seq<SectorStatus>,
    legs: Seq<Leg>,
    t: FaultySource<MemSource>,
    i: int,
)
    requires
        ss > 0,
        is_run(opts, ss, m, legs),
        is_over(opts, m, legs),
        legs_led(s, legs, t),
        0 <= i < m.len() <= s.inner.data@.len(),
        spared(s.bad@, i - ss + 1, i + ss),
        failures_left(s.bad@) < opts.retry_passes,
    ensures
        legs_map(m, legs)[i] == SectorStatus::Rescued,
{
    lemma_legs_len(m, legs);
    let v = legs_map(m, legs);
    if v[i] != SectorStatus::Rescued {
        assert(v[i] == SectorStatus::Bad);
        lemma_retries_use_up(opts, ss, s, m, legs, t, i);
        lemma_not_negative(t.bad@);
    }
}

proof fn lemma_not_negative(bad: Seq<BadRegion>)
    ensures
        failures_left(bad) >= 0,
    decreases bad.len(),
{
    if bad.len() > 0 {
        lemma_not_negative(bad.drop_last());
    }
}

} // verus!
