//! What each pass is for: laws over the logs of the passes that narrow bad
//! areas down, and over the passes of a whole run.

use super::order::{covers, lemma_last_read_counts, lemma_played_len};
use super::passes::{copied_by, retried_by, scraped, trimmed_by};
use super::trace::{
    copy_plan, counted, failures, first_with, first_without, is_backward_log, is_copy_log,
    is_last_sector, is_run, is_sector_log, is_trim_log, is_trim_read, legs_failures, legs_map,
    legs_phase, legs_place, lowest, none_within, played, ran_through, reached, retries_in, taken_up,
    trim_after, trim_state, Attempt, Leg, Trim,
};
use super::sink::ImageSink;
use super::source::SectorSource;
use super::{is_over, ran_by, sums_up, ImagingEngine, ImagingOptions, Summary};
use crate::map::{
    lemma_ranges_list_areas, lists_areas, tally, Extent, Phase, RescueMap, SectorStatus,
};
use vstd::prelude::*;

verus! {

// Trimming.

/// The byte `i` is there and still to be trimmed.
pub open spec fn is_rough(v: Seq<SectorStatus>, i: int) -> bool {
    0 <= i < v.len() && v[i] == SectorStatus::NonTrimmed
}

/// All bytes of `[a, b)` are still to be trimmed.
pub open spec fn all_rough(v: Seq<SectorStatus>, a: int, b: int) -> bool {
    forall|i: int| a <= i < b ==> #[trigger] is_rough(v, i)
}

/// The byte `i` is bad or left for scraping.
pub open spec fn is_hard(v: Seq<SectorStatus>, i: int) -> bool {
    0 <= i < v.len() && (v[i] == SectorStatus::Bad || v[i] == SectorStatus::NonScraped)
}

/// What the trim pass leaves for scraping is enclosed by bad bytes.
spec fn is_enclosed(m: Seq<SectorStatus>, v: Seq<SectorStatus>) -> bool {
    forall|i: int|
        0 <= i < v.len() && #[trigger] v[i] == SectorStatus::NonScraped && m[i]
            != SectorStatus::NonScraped ==> is_hard(v, i - 1) && is_hard(v, i + 1)
}

/// What is left of a block is all of what is still to be trimmed there; it is
/// trimmed from its end once a sector before it is bad.
spec fn is_block(t: Trim, size: int) -> bool {
    &&& t.m.len() == size
    &&& t.lo < t.hi ==> {
        &&& 0 <= t.lo
        &&& t.hi <= size
        &&& all_rough(t.m, t.lo, t.hi)
        &&& !is_rough(t.m, t.lo - 1)
        &&& !is_rough(t.m, t.hi)
        &&& t.back ==> is_hard(t.m, t.lo - 1)
    }
}

proof fn lemma_ends(m: Seq<SectorStatus>, i: int)
    requires
        0 <= i <= m.len(),
    ensures
        ({
            let a = first_with(m, SectorStatus::NonTrimmed, i);
            &&& i <= a <= m.len()
            &&& a < m.len() ==> is_rough(m, a)
            &&& forall|x: int| i <= x < a ==> !#[trigger] is_rough(m, x)
        }),
        ({
            let b = first_without(m, SectorStatus::NonTrimmed, i);
            &&& i <= b <= m.len()
            &&& !is_rough(m, b)
            &&& all_rough(m, i, b)
        }),
    decreases m.len() - i,
{
    if i < m.len() {
        lemma_ends(m, i + 1);
    }
}

proof fn lemma_taken_up(t: Trim, size: int)
    requires
        is_block(t, size),
    ensures
        is_block(taken_up(t), size),
        taken_up(t).m == t.m,
{
    if t.lo >= t.hi {
        let lo = first_with(t.m, SectorStatus::NonTrimmed, 0);
        lemma_ends(t.m, 0);
        lemma_ends(t.m, lo);
    }
}

#[verifier::rlimit(40)]
proof fn lemma_trim_step(m: Seq<SectorStatus>, t: Trim, ss: int, a: Attempt)
    requires
        ss > 0,
        is_block(t, m.len() as int),
        is_enclosed(m, t.m),
        is_trim_read(t, ss, a),
    ensures
        is_block(trim_after(t, a), m.len() as int),
        is_enclosed(m, trim_after(t, a).m),
        t.lo <= a.pos,
        a.end() <= t.hi,
        0 < a.len <= ss,
        t.back ==> a.end() == t.hi && (a.pos == t.lo || a.pos % ss == 0),
        !t.back ==> a.pos == t.lo && (a.end() == t.hi || a.len == ss),
{
    let u = trim_after(t, a);
    if t.back {
        let h = t.hi - 1;
        let q = h / ss;
        vstd::arithmetic::div_mod::lemma_fundamental_div_mod(h, ss);
        vstd::arithmetic::div_mod::lemma_mod_bound(h, ss);
        vstd::arithmetic::div_mod::lemma_mod_multiples_basic(q, ss);
        assert(ss * q == q * ss) by (nonlinear_arith);
    }
    assert(is_rough(t.m, a.pos));
    assert(is_rough(t.m, a.end() - 1));
    assert forall|i: int| 0 <= i < u.m.len() && !(t.lo <= i < t.hi) implies #[trigger] u.m[i]
        == t.m[i] by {}
    if u.lo < u.hi {
        assert forall|i: int| u.lo <= i < u.hi implies #[trigger] is_rough(u.m, i) by {
            assert(is_rough(t.m, i));
        }
        if !t.back {
            assert(!is_rough(u.m, u.lo - 1));
            assert(!is_rough(u.m, u.hi)) by {
                assert(!is_rough(t.m, t.hi));
            }
        } else {
            assert(!is_rough(u.m, u.lo - 1)) by {
                assert(!is_rough(t.m, t.lo - 1));
            }
            assert(!is_rough(u.m, u.hi));
            assert(is_hard(u.m, u.lo - 1));
        }
    }
    assert forall|i: int|
        0 <= i < u.m.len() && #[trigger] u.m[i] == SectorStatus::NonScraped && m[i]
            != SectorStatus::NonScraped implies is_hard(u.m, i - 1) && is_hard(u.m, i + 1) by {
        if t.lo <= i < t.hi {
            assert(is_rough(t.m, i));
            assert(t.back && !a.ok && i < a.pos);
            if i > t.lo {
                assert(u.m[i - 1] == SectorStatus::NonScraped);
            } else {
                assert(is_hard(t.m, t.lo - 1));
            }
            if i + 1 < a.pos {
                assert(u.m[i + 1] == SectorStatus::NonScraped);
            } else {
                assert(u.m[a.pos] == SectorStatus::Bad);
            }
        } else {
            assert(t.m[i] == SectorStatus::NonScraped);
            assert(is_hard(t.m, i - 1) && is_hard(t.m, i + 1));
            assert(!is_rough(t.m, i - 1) && !is_rough(t.m, i + 1));
            assert(!(t.lo <= i - 1 < t.hi)) by {
                if t.lo <= i - 1 < t.hi {
                    assert(is_rough(t.m, i - 1));
                }
            }
            assert(!(t.lo <= i + 1 < t.hi)) by {
                if t.lo <= i + 1 < t.hi {
                    assert(is_rough(t.m, i + 1));
                }
            }
        }
    }
}

proof fn lemma_trim_states(m: Seq<SectorStatus>, ss: int, log: Seq<Attempt>)
    requires
        ss > 0,
        is_trim_log(m, ss, log),
    ensures
        is_block(trim_state(m, log), m.len() as int),
        is_enclosed(m, trim_state(m, log).m),
    decreases log.len(),
{
    if log.len() > 0 {
        let s = trim_state(m, log.drop_last());
        lemma_trim_states(m, ss, log.drop_last());
        lemma_taken_up(s, m.len() as int);
        lemma_trim_step(m, taken_up(s), ss, log.last());
    }
}

proof fn lemma_part_of_trim_log(m: Seq<SectorStatus>, ss: int, log: Seq<Attempt>, n: int)
    requires
        is_trim_log(m, ss, log),
        0 <= n <= log.len(),
    ensures
        is_trim_log(m, ss, log.take(n)),
    decreases log.len() - n,
{
    if n < log.len() {
        lemma_part_of_trim_log(m, ss, log.drop_last(), n);
        assert(log.drop_last().take(n) =~= log.take(n));
    } else {
        assert(log.take(n) =~= log);
    }
}

/// The state of the trim pass before its `j`-th read, and after it.
proof fn lemma_trim_at(m: Seq<SectorStatus>, ss: int, log: Seq<Attempt>, j: int) -> (t: Trim)
    requires
        ss > 0,
        is_trim_log(m, ss, log),
        0 <= j < log.len(),
    ensures
        t == taken_up(trim_state(m, log.take(j))),
        t.m == trim_state(m, log.take(j)).m,
        is_block(t, m.len() as int),
        is_enclosed(m, t.m),
        is_trim_read(t, ss, log[j]),
        trim_state(m, log.take(j + 1)) == trim_after(t, log[j]),
{
    let s = trim_state(m, log.take(j));
    lemma_part_of_trim_log(m, ss, log, j);
    lemma_part_of_trim_log(m, ss, log, j + 1);
    lemma_trim_states(m, ss, log.take(j));
    lemma_taken_up(s, m.len() as int);
    assert(log.take(j + 1).drop_last() =~= log.take(j));
    assert(log.take(j + 1).last() == log[j]);
    taken_up(s)
}

/// The trim pass reads at the edges of bad areas, at most a sector at a time:
/// every byte that it reads is still to be trimmed, and the byte before or
/// the byte behind is not.
pub proof fn lemma_trimming_reads_edges(
    m: Seq<SectorStatus>,
    ss: int,
    log: Seq<Attempt>,
    j: int,
)
    requires
        ss > 0,
        is_trim_log(m, ss, log),
        0 <= j < log.len(),
    ensures
        ({
            let v = trim_state(m, log.take(j)).m;
            let a = log[j];
            &&& 0 < a.len <= ss
            &&& all_rough(v, a.pos, a.pos + a.len)
            &&& {
                ||| !is_rough(v, a.pos - 1) && (a.len == ss || !is_rough(v, a.pos + a.len))
                ||| !is_rough(v, a.pos + a.len) && (a.pos % ss == 0 || !is_rough(v, a.pos - 1))
            }
        }),
{
    let t = lemma_trim_at(m, ss, log, j);
    let a = log[j];
    lemma_trim_step(m, t, ss, a);
    assert forall|i: int| a.pos <= i < a.pos + a.len implies #[trigger] is_rough(t.m, i) by {}
}

/// A bad area is trimmed from its start up to the first bad sector, and then
/// from its end: after a read at the start that succeeded the next one
/// follows on it, after one that failed the next one is at the end. After
/// a read at the end that succeeded the next one comes right before it,
/// and after one that failed the rest is left for scraping.
#[verifier::rlimit(40)]
pub proof fn lemma_trimming_goes_inwards(
    m: Seq<SectorStatus>,
    ss: int,
    log: Seq<Attempt>,
    j: int,
)
    requires
        ss > 0,
        is_trim_log(m, ss, log),
        0 <= j < log.len(),
    ensures
        ({
            let v = trim_state(m, log.take(j)).m;
            let w = trim_state(m, log.take(j + 1)).m;
            let a = log[j];
            &&& v.len() == m.len()
            &&& w.len() == m.len()
            &&& is_rough(v, a.end()) && j + 1 < log.len() && a.ok ==> log[j + 1].pos == a.end()
            &&& is_rough(v, a.end()) && j + 1 < log.len() && !a.ok ==> all_rough(
                w,
                a.end(),
                log[j + 1].end(),
            ) && !is_rough(w, log[j + 1].end()) && log[j + 1].end() > a.end()
            &&& is_rough(v, a.pos - 1) && j + 1 < log.len() && a.ok ==> log[j + 1].end() == a.pos
            &&& is_rough(v, a.pos - 1) && !a.ok ==> forall|i: int|
                0 <= i < a.pos && all_rough(v, i, a.pos) ==> #[trigger] w[i]
                    == SectorStatus::NonScraped
            &&& forall|i: int|
                a.pos <= i < a.end() ==> #[trigger] w[i] == if a.ok {
                    SectorStatus::Rescued
                } else {
                    SectorStatus::Bad
                }
        }),
{
    let t = lemma_trim_at(m, ss, log, j);
    let a = log[j];
    lemma_trim_step(m, t, ss, a);
    let u = trim_after(t, a);
    assert(t.back ==> !is_rough(t.m, a.end()));
    assert(!t.back ==> !is_rough(t.m, a.pos - 1));
    assert(is_rough(t.m, a.end()) ==> a.end() < t.hi) by {
        if a.end() == t.hi {
            assert(!is_rough(t.m, t.hi));
        }
    }
    assert(is_rough(t.m, a.pos - 1) ==> a.pos > t.lo) by {
        if a.pos == t.lo {
            assert(!is_rough(t.m, t.lo - 1));
        }
    }
    if j + 1 < log.len() {
        let t2 = lemma_trim_at(m, ss, log, j + 1);
        lemma_trim_step(m, t2, ss, log[j + 1]);
        if u.lo < u.hi {
            assert(t2 == u);
        }
    }
    if t.back && !a.ok {
        assert forall|i: int| 0 <= i < a.pos && all_rough(t.m, i, a.pos) implies #[trigger] u.m[i]
            == SectorStatus::NonScraped by {
            if i < t.lo {
                assert(is_rough(t.m, t.lo - 1));
            }
        }
    }
}

/// What trimming leaves for scraping is enclosed by bad bytes: both
/// neighbours of such a byte are bad, or left for scraping too.
pub proof fn lemma_trimmed_areas_are_enclosed(
    m: Seq<SectorStatus>,
    ss: int,
    log: Seq<Attempt>,
    i: int,
)
    requires
        ss > 0,
        is_trim_log(m, ss, log),
        0 <= i < m.len(),
        m[i] != SectorStatus::NonScraped,
        trim_state(m, log).m[i] == SectorStatus::NonScraped,
    ensures
        is_hard(trim_state(m, log).m, i - 1),
        is_hard(trim_state(m, log).m, i + 1),
{
    lemma_trim_states(m, ss, log);
}

// Scraping and retrying.

/// The reads of the log come one behind the other.
pub open spec fn rises(log: Seq<Attempt>) -> bool {
    forall|x: int, y: int|
        0 <= x < y < log.len() ==> (#[trigger] log[x]).end() <= (#[trigger] log[y]).pos
}

/// The reads of the log come one before the other.
pub open spec fn falls(log: Seq<Attempt>) -> bool {
    forall|x: int, y: int|
        0 <= x < y < log.len() ==> (#[trigger] log[y]).end() <= (#[trigger] log[x]).pos
}

/// Each read of the log is of at most one sector, and of bytes with the
/// status `st` only.
pub open spec fn reads_only(
    m: Seq<SectorStatus>,
    st: SectorStatus,
    ss: int,
    log: Seq<Attempt>,
) -> bool {
    forall|x: int|
        0 <= x < log.len() ==> 0 < (#[trigger] log[x]).len <= ss && 0 <= log[x].pos
            && log[x].end() <= m.len() && forall|i: int|
            log[x].pos <= i < log[x].end() ==> #[trigger] m[i] == st
}

/// Every byte with the status `st` was read.
pub open spec fn reads_all(m: Seq<SectorStatus>, st: SectorStatus, log: Seq<Attempt>) -> bool {
    forall|i: int|
        0 <= i < m.len() && #[trigger] m[i] == st ==> exists|x: int|
            0 <= x < log.len() && covers(#[trigger] log[x], i)
}

proof fn lemma_sector_log(m: Seq<SectorStatus>, st: SectorStatus, ss: int, log: Seq<Attempt>)
    requires
        is_sector_log(m, st, ss, log),
    ensures
        rises(log),
        reads_only(m, st, ss, log),
        forall|x: int| 0 <= x < log.len() ==> (#[trigger] log[x]).end() <= reached(log),
        forall|i: int|
            0 <= i < reached(log) && #[trigger] m[i] == st ==> exists|x: int|
                0 <= x < log.len() && covers(#[trigger] log[x], i),
        0 <= reached(log) <= m.len(),
    decreases log.len(),
{
    if log.len() > 0 {
        let before = log.drop_last();
        let n = log.len() - 1;
        lemma_sector_log(m, st, ss, before);
        assert forall|x: int, y: int| 0 <= x < y < log.len() implies (#[trigger] log[x]).end() <= (
        #[trigger] log[y]).pos by {
            assert(before[x] == log[x]);
            if y < n {
                assert(before[y] == log[y]);
            }
        }
        assert forall|x: int| 0 <= x < log.len() implies 0 < (#[trigger] log[x]).len <= ss && 0
            <= log[x].pos && log[x].end() <= m.len() && forall|i: int|
            log[x].pos <= i < log[x].end() ==> #[trigger] m[i] == st by {
            if x < n {
                assert(before[x] == log[x]);
            }
        }
        assert forall|x: int| 0 <= x < log.len() implies (#[trigger] log[x]).end() <= reached(
            log,
        ) by {
            if x < n {
                assert(before[x] == log[x]);
            }
        }
        assert forall|i: int| 0 <= i < reached(log) && #[trigger] m[i] == st implies exists|x: int|
            0 <= x < log.len() && covers(#[trigger] log[x], i) by {
            if i < reached(before) {
                let x = choose|x: int| 0 <= x < before.len() && covers(#[trigger] before[x], i);
                assert(covers(log[x], i));
            } else {
                assert(covers(log[n], i));
            }
        }
    }
}

proof fn lemma_backward_log(m: Seq<SectorStatus>, st: SectorStatus, ss: int, log: Seq<Attempt>)
    requires
        is_backward_log(m, st, ss, log),
    ensures
        falls(log),
        reads_only(m, st, ss, log),
        forall|x: int|
            0 <= x < log.len() ==> lowest(log, m.len() as int) <= (#[trigger] log[x]).pos,
        forall|i: int|
            lowest(log, m.len() as int) <= i < m.len() && #[trigger] m[i] == st ==> exists|x: int|
                0 <= x < log.len() && covers(#[trigger] log[x], i),
        0 <= lowest(log, m.len() as int) <= m.len(),
    decreases log.len(),
{
    if log.len() > 0 {
        let before = log.drop_last();
        let n = log.len() - 1;
        let size = m.len() as int;
        lemma_backward_log(m, st, ss, before);
        let start = choose|start: int| #[trigger]
            is_last_sector(m, st, ss, lowest(before, size), log.last(), start);
        assert forall|x: int, y: int| 0 <= x < y < log.len() implies (#[trigger] log[y]).end() <= (
        #[trigger] log[x]).pos by {
            assert(before[x] == log[x]);
            if y < n {
                assert(before[y] == log[y]);
            }
        }
        assert forall|x: int| 0 <= x < log.len() implies 0 < (#[trigger] log[x]).len <= ss && 0
            <= log[x].pos && log[x].end() <= m.len() && forall|i: int|
            log[x].pos <= i < log[x].end() ==> #[trigger] m[i] == st by {
            if x < n {
                assert(before[x] == log[x]);
            }
        }
        assert forall|x: int| 0 <= x < log.len() implies lowest(log, size) <= (
        #[trigger] log[x]).pos by {
            if x < n {
                assert(before[x] == log[x]);
            }
        }
        assert forall|i: int|
            lowest(log, size) <= i < m.len() && #[trigger] m[i] == st implies exists|x: int|
            0 <= x < log.len() && covers(#[trigger] log[x], i) by {
            if i >= lowest(before, size) {
                let x = choose|x: int| 0 <= x < before.len() && covers(#[trigger] before[x], i);
                assert(covers(log[x], i));
            } else {
                assert(covers(log[n], i));
            }
        }
    }
}

// A whole run.

/// How many of the first `k` passes read bad sectors again.
pub open spec fn retries_before(legs: Seq<Leg>, k: int) -> int
    decreases k,
{
    if k <= 0 {
        0
    } else if legs[k - 1].phase == Phase::Retrying {
        retries_before(legs, k - 1) + 1
    } else {
        retries_before(legs, k - 1)
    }
}

/// No byte has the status `st`.
pub open spec fn nowhere(m: Seq<SectorStatus>, st: SectorStatus) -> bool {
    forall|i: int| 0 <= i < m.len() ==> #[trigger] m[i] != st
}

proof fn lemma_retries(legs: Seq<Leg>, k: int)
    requires
        0 <= k <= legs.len(),
    ensures
        retries_in(legs.take(k)) == retries_before(legs, k),
    decreases k,
{
    if k > 0 {
        lemma_retries(legs, k - 1);
        assert(legs.take(k).drop_last() =~= legs.take(k - 1));
    } else {
        assert(legs.take(0) =~= Seq::empty());
    }
}

proof fn lemma_part_of_run(
    opts: ImagingOptions,
    ss: int,
    m: Seq<SectorStatus>,
    legs: Seq<Leg>,
    n: int,
)
    requires
        is_run(opts, ss, m, legs),
        0 <= n <= legs.len(),
    ensures
        is_run(opts, ss, m, legs.take(n)),
    decreases legs.len() - n,
{
    if n < legs.len() {
        lemma_part_of_run(opts, ss, m, legs.drop_last(), n);
        assert(legs.drop_last().take(n) =~= legs.take(n));
    } else {
        assert(legs.take(n) =~= legs);
    }
}

/// The passes come in their order: an area is trimmed only when all was
/// tried, scraped only when all is trimmed, and read again only when all
/// is scraped, as often as was asked for. Every second of those last
/// passes goes backwards.
pub proof fn lemma_passes_come_in_order(
    opts: ImagingOptions,
    ss: int,
    m: Seq<SectorStatus>,
    legs: Seq<Leg>,
    k: int,
)
    requires
        is_run(opts, ss, m, legs),
        0 <= k < legs.len(),
    ensures
        ({
            let v = legs_map(m, legs.take(k));
            let log = legs[k].log;
            match legs[k].phase {
                Phase::Copying => !nowhere(v, SectorStatus::NonTried),
                Phase::Trimming => nowhere(v, SectorStatus::NonTried) && !nowhere(
                    v,
                    SectorStatus::NonTrimmed,
                ),
                Phase::Scraping => {
                    &&& nowhere(v, SectorStatus::NonTried)
                    &&& nowhere(v, SectorStatus::NonTrimmed)
                    &&& !nowhere(v, SectorStatus::NonScraped)
                    &&& rises(log)
                    &&& reads_only(v, SectorStatus::NonScraped, ss, log)
                },
                Phase::Retrying => {
                    &&& nowhere(v, SectorStatus::NonTried)
                    &&& nowhere(v, SectorStatus::NonTrimmed)
                    &&& nowhere(v, SectorStatus::NonScraped)
                    &&& !nowhere(v, SectorStatus::Bad)
                    &&& retries_before(legs, k) < opts.retry_passes
                    &&& reads_only(v, SectorStatus::Bad, ss, log)
                    &&& retries_before(legs, k) % 2 == 0 ==> rises(log)
                    &&& retries_before(legs, k) % 2 == 1 ==> falls(log)
                },
                Phase::Finished => false,
            }
        }),
{
    lemma_part_of_run(opts, ss, m, legs, k + 1);
    let upto = legs.take(k + 1);
    let before = legs.take(k);
    assert(upto.drop_last() =~= before);
    assert(upto.last() == legs[k]);
    lemma_retries(legs, k);
    lemma_retries(legs, k + 1);
    let v = legs_map(m, before);
    let log = legs[k].log;
    if legs[k].phase == Phase::Scraping {
        lemma_sector_log(v, SectorStatus::NonScraped, ss, log);
    }
    if legs[k].phase == Phase::Retrying {
        if retries_before(legs, k + 1) % 2 == 0 {
            lemma_backward_log(v, SectorStatus::Bad, ss, log);
        } else {
            lemma_sector_log(v, SectorStatus::Bad, ss, log);
        }
    }
}

/// Each pass but perhaps the last does all of its work: copying leaves
/// nothing untried, trimming nothing rough, scraping nothing unscraped, and
/// each pass over the bad sectors reads all of them.
pub proof fn lemma_passes_do_their_work(
    opts: ImagingOptions,
    ss: int,
    m: Seq<SectorStatus>,
    legs: Seq<Leg>,
    k: int,
)
    requires
        is_run(opts, ss, m, legs),
        0 <= k < legs.len() - 1 || (k == legs.len() - 1 && is_over(opts, m, legs) && k >= 0),
    ensures
        ({
            let v = legs_map(m, legs.take(k));
            let w = legs_map(m, legs.take(k + 1));
            match legs[k].phase {
                Phase::Copying => nowhere(w, SectorStatus::NonTried),
                Phase::Trimming => nowhere(w, SectorStatus::NonTrimmed),
                Phase::Scraping => nowhere(w, SectorStatus::NonScraped),
                Phase::Retrying => reads_all(v, SectorStatus::Bad, legs[k].log),
                Phase::Finished => false,
            }
        }),
{
    let upto = legs.take(k + 1);
    assert(upto.drop_last() =~= legs.take(k));
    assert(upto.last() == legs[k]);
    lemma_part_of_run(opts, ss, m, legs, k + 1);
    lemma_retries(legs, k);
    lemma_retries(legs, k + 1);
    if k < legs.len() - 1 {
        lemma_part_of_run(opts, ss, m, legs, k + 2);
        assert(legs.take(k + 2).drop_last() =~= upto);
    } else {
        assert(upto =~= legs);
    }
    assert(ran_through(m, upto));
    let v = legs_map(m, legs.take(k));
    let log = legs[k].log;
    if legs[k].phase == Phase::Retrying {
        if retries_before(legs, k + 1) % 2 == 0 {
            lemma_backward_log(v, SectorStatus::Bad, ss, log);
            assert(none_within(v, SectorStatus::Bad, 0, lowest(log, v.len() as int)));
        } else {
            lemma_sector_log(v, SectorStatus::Bad, ss, log);
            assert(none_within(v, SectorStatus::Bad, reached(log), v.len() as int));
        }
        assert forall|i: int| 0 <= i < v.len() && #[trigger] v[i] == SectorStatus::Bad implies
            exists|x: int| 0 <= x < log.len() && covers(#[trigger] log[x], i) by {}
    }
}

/// A run that is over has left nothing to do: every byte is rescued or
/// bad, and the bad sectors were read again as often as was asked for,
/// unless none is left.
pub proof fn lemma_run_is_complete(opts: ImagingOptions, m: Seq<SectorStatus>, legs: Seq<Leg>)
    requires
        is_over(opts, m, legs),
    ensures
        forall|i: int|
            0 <= i < legs_map(m, legs).len() ==> #[trigger] legs_map(m, legs)[i]
                == SectorStatus::Rescued || legs_map(m, legs)[i] == SectorStatus::Bad,
        nowhere(legs_map(m, legs), SectorStatus::Bad) || retries_before(legs, legs.len() as int)
            >= opts.retry_passes,
{
    lemma_retries(legs, legs.len() as int);
    assert(legs.take(legs.len() as int) =~= legs);
}

/// How many reads of the first `k` passes failed.
pub open spec fn failed_before(legs: Seq<Leg>, k: int) -> int
    decreases k,
{
    if k <= 0 {
        0
    } else {
        failed_before(legs, k - 1) + legs[k - 1].log.filter(|a: Attempt| !a.ok).len()
    }
}

proof fn lemma_failures_are_counted(log: Seq<Attempt>)
    ensures
        failures(log) == log.filter(|a: Attempt| !a.ok).len(),
    decreases log.len(),
{
    reveal(Seq::filter);
    if log.len() > 0 {
        lemma_failures_are_counted(log.drop_last());
    }
}

proof fn lemma_failed(legs: Seq<Leg>, k: int)
    requires
        0 <= k <= legs.len(),
    ensures
        legs_failures(legs.take(k)) == failed_before(legs, k),
    decreases k,
{
    if k > 0 {
        lemma_failed(legs, k - 1);
        lemma_failures_are_counted(legs[k - 1].log);
        assert(legs.take(k).drop_last() =~= legs.take(k - 1));
    } else {
        assert(legs.take(0) =~= Seq::empty());
    }
}

/// The passes from the `k`-th on read nothing.
pub open spec fn silent_from(legs: Seq<Leg>, k: int) -> bool {
    forall|j: int| k <= j < legs.len() ==> (#[trigger] legs[j]).log.len() == 0
}

proof fn lemma_position(opts: ImagingOptions, ss: int, legs: Seq<Leg>, at: u64, k: int)
    requires
        -1 <= k < legs.len(),
        silent_from(legs, k + 1),
        k >= 0 ==> legs[k].log.len() > 0,
    ensures
        legs_place(opts, ss, legs, at) == if k < 0 {
            at as int
        } else if legs[k].phase == Phase::Copying && !opts.reverse {
            legs[k].log.last().pos + legs[k].log.last().len
        } else {
            legs[k].log.last().pos
        },
    decreases legs.len(),
{
    if legs.len() > 0 && k < legs.len() - 1 {
        let before = legs.drop_last();
        assert(legs[legs.len() - 1].log.len() == 0);
        assert forall|j: int| k + 1 <= j < before.len() implies (#[trigger] before[j]).log.len()
            == 0 by {
            assert(before[j] == legs[j]);
        }
        if k >= 0 {
            assert(before[k] == legs[k]);
        }
        lemma_position(opts, ss, before, at, k);
    }
}

/// A run keeps account: each pass over the bad sectors counts in the pass
/// number, each failed read in the number of errors, and the position is
/// that of the last read, or its end when copying forwards.
pub proof fn lemma_run_keeps_account<S: SectorSource, K: ImageSink>(
    e0: ImagingEngine<S, K>,
    m0: RescueMap,
    e1: ImagingEngine<S, K>,
    m1: RescueMap,
    legs: Seq<Leg>,
    k: int,
)
    requires
        ran_by(e0, m0, e1, m1, legs),
        -1 <= k < legs.len(),
        silent_from(legs, k + 1),
        k >= 0 ==> legs[k].log.len() > 0,
    ensures
        ({
            let n = legs.len() as int;
            &&& m0.pass + retries_before(legs, n) <= u32::MAX ==> m1.pass == m0.pass
                + retries_before(legs, n)
            &&& m0.pass + retries_before(legs, n) > u32::MAX ==> m1.pass == u32::MAX
            &&& e0.read_errors + failed_before(legs, n) <= u64::MAX ==> e1.read_errors
                == e0.read_errors + failed_before(legs, n)
            &&& e0.read_errors + failed_before(legs, n) > u64::MAX ==> e1.read_errors == u64::MAX
            &&& m1.current_pos == if k < 0 {
                m0.current_pos as int
            } else if legs[k].phase == Phase::Copying && !e0.opts.reverse {
                legs[k].log.last().pos + legs[k].log.last().len
            } else {
                legs[k].log.last().pos
            }
        }),
{
    let n = legs.len() as int;
    lemma_retries(legs, n);
    lemma_failed(legs, n);
    assert(legs.take(n) =~= legs);
    lemma_position(e0.opts, e0.src.sector_len() as int, legs, m0.current_pos, k);
}

/// The map tells the pass that was made last, or what it told before if none
/// was made.
pub proof fn lemma_last_pass_is_told(legs: Seq<Leg>, phase: Phase, leg: Leg)
    ensures
        legs_phase(Seq::empty(), phase) == phase,
        legs_phase(legs.push(leg), phase) == leg.phase,
{
}

/// A summary tells the bytes that are rescued, the bytes that are bad, the
/// areas of those, and the errors.
pub proof fn lemma_summary_counts<S: SectorSource, K: ImageSink>(
    s: Summary,
    e: ImagingEngine<S, K>,
    m: RescueMap,
)
    requires
        m.wf(),
        sums_up(s, e, m),
    ensures
        s.rescued == m@.filter(|x: SectorStatus| x == SectorStatus::Rescued).len(),
        s.bad_bytes == m@.filter(|x: SectorStatus| x == SectorStatus::Bad).len(),
        exists|areas: Seq<Extent>| #[trigger]
            lists_areas(m@, areas, SectorStatus::Bad) && s.bad_areas == areas.len(),
        s.read_errors == e.read_errors,
{
    lemma_bytes_are_counted(m@, SectorStatus::Rescued);
    lemma_bytes_are_counted(m@, SectorStatus::Bad);
    lemma_ranges_list_areas(m, SectorStatus::Bad);
}

proof fn lemma_bytes_are_counted(v: Seq<SectorStatus>, st: SectorStatus)
    ensures
        tally(v, st) == v.filter(|x: SectorStatus| x == st).len(),
    decreases v.len(),
{
    reveal(Seq::filter);
    if v.len() > 0 {
        lemma_bytes_are_counted(v.drop_last(), st);
    }
}

// What passes make of a map.

/// The `x`-th read of the log is the last that covers the byte `b`; none
/// does where `x` is -1.
pub open spec fn covers_last(log: Seq<Attempt>, b: int, x: int) -> bool {
    &&& -1 <= x < log.len()
    &&& x >= 0 ==> covers(log[x], b)
    &&& forall|y: int| x < y < log.len() ==> !covers(#[trigger] log[y], b)
}

/// The reads of the log made `w` of the map `m`: each byte that was read is
/// rescued if the last read of it succeeded, and `fail` otherwise; the
/// others are as they were.
pub open spec fn is_made_of(
    m: Seq<SectorStatus>,
    log: Seq<Attempt>,
    fail: SectorStatus,
    w: Seq<SectorStatus>,
) -> bool {
    &&& w.len() == m.len()
    &&& forall|b: int, x: int|
        0 <= b < m.len() && #[trigger] covers_last(log, b, x) ==> w[b] == if x < 0 {
            m[b]
        } else if log[x].ok {
            SectorStatus::Rescued
        } else {
            fail
        }
}

/// The errors are those before and one for each failed read, up to the
/// largest number.
pub open spec fn are_errors(before: u64, log: Seq<Attempt>, errors: u64) -> bool {
    let n = before + log.filter(|a: Attempt| !a.ok).len();
    errors == if n <= u64::MAX {
        n
    } else {
        u64::MAX as int
    }
}

proof fn lemma_made_of(m: Seq<SectorStatus>, log: Seq<Attempt>, fail: SectorStatus)
    ensures
        is_made_of(m, log, fail, played(m, log, fail)),
{
    let w = played(m, log, fail);
    lemma_played_len(m, log, fail);
    assert forall|b: int, x: int|
        0 <= b < m.len() && #[trigger] covers_last(log, b, x) implies w[b] == if x < 0 {
        m[b]
    } else if log[x].ok {
        SectorStatus::Rescued
    } else {
        fail
    } by {
        lemma_last_read_counts(m, log, fail, b, x);
    }
}

proof fn lemma_errors(before: u64, log: Seq<Attempt>, errors: u64)
    requires
        errors == counted(before, failures(log)),
    ensures
        are_errors(before, log, errors),
{
    lemma_failures_are_counted(log);
}

/// The copy pass reads what was not tried, as the laws on its order tell;
/// what it cannot read is left for trimming.
pub proof fn lemma_copy_pass<S: SectorSource, K: ImageSink>(
    e0: ImagingEngine<S, K>,
    m0: RescueMap,
    e1: ImagingEngine<S, K>,
    m1: RescueMap,
    log: Seq<Attempt>,
)
    requires
        copied_by(e0, m0, e1, m1, log),
    ensures
        is_copy_log(copy_plan(e0.opts, e0.src.sector_len() as int), m0@, log),
        is_made_of(m0@, log, SectorStatus::NonTrimmed, m1@),
        are_errors(e0.read_errors, log, e1.read_errors),
        log.len() == 0 ==> m1.current_pos == m0.current_pos,
        log.len() > 0 && e0.opts.reverse ==> m1.current_pos == log.last().pos,
        log.len() > 0 && !e0.opts.reverse ==> m1.current_pos == log.last().pos + log.last().len,
{
    lemma_made_of(m0@, log, SectorStatus::NonTrimmed);
    lemma_errors(e0.read_errors, log, e1.read_errors);
}

/// The trim pass reads at the edges of bad areas, as the laws on it tell.
pub proof fn lemma_trim_pass<S: SectorSource, K: ImageSink>(
    e0: ImagingEngine<S, K>,
    m0: RescueMap,
    e1: ImagingEngine<S, K>,
    m1: RescueMap,
    log: Seq<Attempt>,
)
    requires
        trimmed_by(e0, m0, e1, m1, log),
    ensures
        is_trim_log(m0@, e0.src.sector_len() as int, log),
        m1@ == trim_state(m0@, log).m,
        are_errors(e0.read_errors, log, e1.read_errors),
        log.len() == 0 ==> m1.current_pos == m0.current_pos,
        log.len() > 0 ==> m1.current_pos == log.last().pos,
{
    lemma_errors(e0.read_errors, log, e1.read_errors);
}

/// The scrape pass reads what is left between the edges, sector by sector
/// from the start; what it cannot read is bad.
pub proof fn lemma_scrape_pass<S: SectorSource, K: ImageSink>(
    e0: ImagingEngine<S, K>,
    m0: RescueMap,
    e1: ImagingEngine<S, K>,
    m1: RescueMap,
    log: Seq<Attempt>,
)
    requires
        scraped(e0, m0, e1, m1, log),
    ensures
        rises(log),
        reads_only(m0@, SectorStatus::NonScraped, e0.src.sector_len() as int, log),
        is_made_of(m0@, log, SectorStatus::Bad, m1@),
        are_errors(e0.read_errors, log, e1.read_errors),
        log.len() == 0 ==> m1.current_pos == m0.current_pos,
        log.len() > 0 ==> m1.current_pos == log.last().pos,
{
    lemma_sector_log(m0@, SectorStatus::NonScraped, e0.src.sector_len() as int, log);
    lemma_made_of(m0@, log, SectorStatus::Bad);
    lemma_errors(e0.read_errors, log, e1.read_errors);
}

/// A retry pass reads the bad sectors again, from the start or from the
/// end; what it cannot read stays bad.
pub proof fn lemma_retry_pass<S: SectorSource, K: ImageSink>(
    e0: ImagingEngine<S, K>,
    m0: RescueMap,
    e1: ImagingEngine<S, K>,
    m1: RescueMap,
    reverse: bool,
    log: Seq<Attempt>,
)
    requires
        retried_by(e0, m0, e1, m1, reverse, log),
    ensures
        reverse ==> falls(log),
        !reverse ==> rises(log),
        reads_only(m0@, SectorStatus::Bad, e0.src.sector_len() as int, log),
        is_made_of(m0@, log, SectorStatus::Bad, m1@),
        are_errors(e0.read_errors, log, e1.read_errors),
        log.len() == 0 ==> m1.current_pos == m0.current_pos,
        log.len() > 0 ==> m1.current_pos == log.last().pos,
{
    if reverse {
        lemma_backward_log(m0@, SectorStatus::Bad, e0.src.sector_len() as int, log);
    } else {
        lemma_sector_log(m0@, SectorStatus::Bad, e0.src.sector_len() as int, log);
    }
    lemma_made_of(m0@, log, SectorStatus::Bad);
    lemma_errors(e0.read_errors, log, e1.read_errors);
}

/// A run is its passes: what they make of the map is what the run does.
pub proof fn lemma_run_is_its_passes<S: SectorSource, K: ImageSink>(
    e0: ImagingEngine<S, K>,
    m0: RescueMap,
    e1: ImagingEngine<S, K>,
    m1: RescueMap,
    legs: Seq<Leg>,
    k: int,
)
    requires
        ran_by(e0, m0, e1, m1, legs),
        0 <= k < legs.len(),
    ensures
        is_run(e0.opts, e0.src.sector_len() as int, m0@, legs),
        m1@ == legs_map(m0@, legs),
        legs_map(m0@, legs.take(0)) == m0@,
        ({
            let v = legs_map(m0@, legs.take(k));
            let w = legs_map(m0@, legs.take(k + 1));
            match legs[k].phase {
                Phase::Copying => is_made_of(v, legs[k].log, SectorStatus::NonTrimmed, w),
                Phase::Trimming => w == trim_state(v, legs[k].log).m,
                _ => is_made_of(v, legs[k].log, SectorStatus::Bad, w),
            }
        }),
{
    assert(legs.take(k + 1).drop_last() =~= legs.take(k));
    let v = legs_map(m0@, legs.take(k));
    lemma_made_of(v, legs[k].log, SectorStatus::NonTrimmed);
    lemma_made_of(v, legs[k].log, SectorStatus::Bad);
}

} // verus!
