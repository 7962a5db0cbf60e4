//! In which order imaging reads: laws over the logs of its passes, read by
//! read.

use super::trace::{
    copy_plan, copy_sweep, is_copy_log, is_copy_read, played, turned, Attempt, CopyPlan, Sweep,
};
use super::ImagingOptions;
use crate::map::SectorStatus;
use vstd::arithmetic::power2::{lemma_pow2_unfold, pow2};
use vstd::prelude::*;

verus! {

/// A read of the log covers the byte `b`.
pub open spec fn covers(a: Attempt, b: int) -> bool {
    a.pos <= b < a.pos + a.len
}

/// The byte `b` was not tried before, and no read of the log covers it.
pub open spec fn fresh(m: Seq<SectorStatus>, log: Seq<Attempt>, b: int) -> bool {
    &&& 0 <= b < m.len()
    &&& m[b] == SectorStatus::NonTried
    &&& forall|x: int| 0 <= x < log.len() ==> !covers(#[trigger] log[x], b)
}

/// The last read that covers a byte tells its status, and a byte that none
/// covers keeps the one it had.
pub proof fn lemma_last_read_counts(
    m: Seq<SectorStatus>,
    log: Seq<Attempt>,
    fail: SectorStatus,
    b: int,
    x: int,
)
    requires
        0 <= b < m.len(),
        -1 <= x < log.len(),
        x >= 0 ==> covers(log[x], b),
        forall|y: int| x < y < log.len() ==> !covers(#[trigger] log[y], b),
    ensures
        played(m, log, fail).len() == m.len(),
        played(m, log, fail)[b] == if x < 0 {
            m[b]
        } else if log[x].ok {
            SectorStatus::Rescued
        } else {
            fail
        },
    decreases log.len(),
{
    if log.len() > 0 {
        let before = log.drop_last();
        if x == log.len() - 1 {
            lemma_played_len(m, before, fail);
        } else {
            assert forall|y: int| x < y < before.len() implies !covers(#[trigger] before[y], b) by {
                assert(before[y] == log[y]);
            }
            if x >= 0 {
                assert(before[x] == log[x]);
            }
            assert(!covers(log[log.len() - 1], b));
            lemma_last_read_counts(m, before, fail, b, x);
        }
    }
}

/// Reads do not change the size of a map.
pub proof fn lemma_played_len(m: Seq<SectorStatus>, log: Seq<Attempt>, fail: SectorStatus)
    ensures
        played(m, log, fail).len() == m.len(),
    decreases log.len(),
{
    if log.len() > 0 {
        lemma_played_len(m, log.drop_last(), fail);
    }
}

proof fn lemma_fresh(m: Seq<SectorStatus>, log: Seq<Attempt>, b: int)
    requires
        0 <= b < m.len(),
    ensures
        fresh(m, log, b) == (played(m, log, SectorStatus::NonTrimmed)[b]
            == SectorStatus::NonTried),
    decreases log.len(),
{
    if log.len() > 0 {
        let before = log.drop_last();
        lemma_fresh(m, before, b);
        lemma_played_len(m, before, SectorStatus::NonTrimmed);
        if fresh(m, before, b) && !covers(log.last(), b) {
            assert forall|x: int| 0 <= x < log.len() implies !covers(#[trigger] log[x], b) by {
                if x < before.len() {
                    assert(before[x] == log[x]);
                }
            }
        }
        if fresh(m, log, b) {
            assert forall|x: int| 0 <= x < before.len() implies !covers(
                #[trigger] before[x],
                b,
            ) by {
                assert(before[x] == log[x]);
            }
            assert(!covers(log[log.len() - 1], b));
        }
    }
}

/// The bytes that the copy pass reads at once: as many sectors as fit in the
/// cluster size that was asked for, and at least one.
pub open spec fn is_cluster(opts: ImagingOptions, ss: int, n: int) -> bool {
    &&& n % ss == 0
    &&& n >= ss
    &&& n <= opts.cluster_size || n == ss
    &&& n + ss > opts.cluster_size
}

/// How far the copy pass skips after `k` failed reads in a row: after the
/// first as far as was asked for, but at least a cluster; after each
/// further one twice as far as before, up to what was asked for at most.
pub open spec fn skip_after(opts: ImagingOptions, cluster: int, k: nat) -> int {
    let first = if opts.skip_size > cluster {
        opts.skip_size as int
    } else {
        cluster
    };
    let more = first * pow2((k - 1) as nat);
    if k <= 1 {
        first
    } else if more < opts.max_skip_size {
        more
    } else {
        opts.max_skip_size as int
    }
}

/// The reads from the `i`-th up to the `j`-th failed, and they are the
/// first ones, or the one before them succeeded.
pub open spec fn failed_in_a_row(log: Seq<Attempt>, i: int, j: int) -> bool {
    &&& 0 <= i <= j < log.len()
    &&& forall|x: int| i <= x <= j ==> !(#[trigger] log[x]).ok
    &&& i == 0 || log[i - 1].ok
}

/// Where a sweep goes on that stands at `at`: with the first fresh byte ahead of
/// it, or where there is none, with the first fresh byte of all.
pub open spec fn goes_on_at(
    m: Seq<SectorStatus>,
    log: Seq<Attempt>,
    at: int,
    pos: int,
) -> bool {
    &&& fresh(m, log, pos)
    &&& {
        ||| pos >= at && forall|b: int| at <= b < pos ==> !#[trigger] fresh(m, log, b)
        ||| pos < at && forall|b: int|
            (at <= b || b < pos) ==> !#[trigger] fresh(m, log, b)
    }
}

/// The same for a sweep that goes backwards, for the end of the next read.
pub open spec fn goes_back_to(
    m: Seq<SectorStatus>,
    log: Seq<Attempt>,
    at: int,
    end: int,
) -> bool {
    &&& fresh(m, log, end - 1)
    &&& {
        ||| end <= at && forall|b: int| end <= b < at ==> !#[trigger] fresh(m, log, b)
        ||| end > at && forall|b: int| (b < at || end <= b) ==> !#[trigger] fresh(m, log, b)
    }
}

proof fn lemma_plan(opts: ImagingOptions, ss: int)
    requires
        ss > 0,
    ensures
        is_cluster(opts, ss, copy_plan(opts, ss).cluster),
        copy_plan(opts, ss).first_skip == skip_after(opts, copy_plan(opts, ss).cluster, 1),
{
    let n = copy_plan(opts, ss).cluster;
    let c = if opts.cluster_size > ss {
        opts.cluster_size as int
    } else {
        ss
    };
    let q = c / ss;
    assert(n == q * ss);
    vstd::arithmetic::div_mod::lemma_fundamental_div_mod(c, ss);
    vstd::arithmetic::div_mod::lemma_mod_bound(c, ss);
    vstd::arithmetic::div_mod::lemma_mod_multiples_basic(q, ss);
    assert(ss * q == q * ss) by (nonlinear_arith);
    assert(q >= 1) by (nonlinear_arith)
        requires
            ss * q + c % ss == c,
            c >= ss,
            0 <= c % ss < ss,
            ss > 0,
    ;
    assert(q * ss >= ss) by (nonlinear_arith)
        requires
            q >= 1,
            ss > 0,
    ;
    if opts.cluster_size <= ss {
        assert(q == 1) by (nonlinear_arith)
            requires
                ss * q + c % ss == c,
                c == ss,
                0 <= c % ss < ss,
                ss > 0,
        ;
        assert(1 * ss == ss) by (nonlinear_arith);
    }
}

/// The parts of a log of the copy pass are such logs.
proof fn lemma_part_of_log(p: CopyPlan, m: Seq<SectorStatus>, log: Seq<Attempt>, n: int)
    requires
        is_copy_log(p, m, log),
        0 <= n <= log.len(),
    ensures
        is_copy_log(p, m, log.take(n)),
    decreases log.len() - n,
{
    if n < log.len() {
        lemma_part_of_log(p, m, log.drop_last(), n);
        assert(log.drop_last().take(n) =~= log.take(n));
    } else {
        assert(log.take(n) =~= log);
    }
}

/// What the copy pass reads next, from the sweep.
proof fn lemma_read(p: CopyPlan, m: Seq<SectorStatus>, log: Seq<Attempt>, n: int)
    requires
        is_copy_log(p, m, log),
        0 <= n < log.len(),
    ensures
        ({
            let before = log.take(n);
            let v = played(m, before, SectorStatus::NonTrimmed);
            &&& is_copy_read(p, v, turned(p, v, copy_sweep(p, m, before)), log[n])
            &&& v.len() == m.len()
            &&& copy_sweep(p, m, log.take(n + 1)) == super::trace::sweep_after(
                p,
                turned(p, v, copy_sweep(p, m, before)),
                log[n],
            )
        }),
{
    lemma_part_of_log(p, m, log, n + 1);
    let upto = log.take(n + 1);
    assert(upto.drop_last() =~= log.take(n));
    assert(upto.last() == log[n]);
    lemma_played_len(m, log.take(n), SectorStatus::NonTrimmed);
}

/// A read tells where the sweep stood.
proof fn lemma_forward_read(p: CopyPlan, m: Seq<SectorStatus>, log: Seq<Attempt>, n: int)
    requires
        !p.reverse,
        is_copy_log(p, m, log),
        0 <= n < log.len(),
        copy_sweep(p, m, log.take(n)).at >= 0,
    ensures
        goes_on_at(m, log.take(n), copy_sweep(p, m, log.take(n)).at, log[n].pos),
        log[n].pos >= copy_sweep(p, m, log.take(n)).at ==> turned(
            p,
            played(m, log.take(n), SectorStatus::NonTrimmed),
            copy_sweep(p, m, log.take(n)),
        ) == copy_sweep(p, m, log.take(n)),
        forall|b: int|
            log[n].pos <= b < log[n].pos + log[n].len ==> #[trigger] fresh(m, log.take(n), b),
        0 < log[n].len <= p.cluster,
        log[n].len == p.cluster || !fresh(m, log.take(n), log[n].pos + log[n].len),
{
    let before = log.take(n);
    let v = played(m, before, SectorStatus::NonTrimmed);
    let s = copy_sweep(p, m, before);
    let a = log[n];
    lemma_read(p, m, log, n);
    assert forall|b: int| 0 <= b < m.len() implies #[trigger] fresh(m, before, b) == (v[b]
        == SectorStatus::NonTried) by {
        lemma_fresh(m, before, b);
    }
    assert(v[a.pos] == SectorStatus::NonTried);
    assert(fresh(m, before, a.pos));
}

proof fn lemma_backward_read(p: CopyPlan, m: Seq<SectorStatus>, log: Seq<Attempt>, n: int)
    requires
        p.reverse,
        is_copy_log(p, m, log),
        0 <= n < log.len(),
    ensures
        goes_back_to(
            m,
            log.take(n),
            copy_sweep(p, m, log.take(n)).at,
            log[n].pos + log[n].len,
        ),
        log[n].pos + log[n].len <= copy_sweep(p, m, log.take(n)).at ==> turned(
            p,
            played(m, log.take(n), SectorStatus::NonTrimmed),
            copy_sweep(p, m, log.take(n)),
        ) == copy_sweep(p, m, log.take(n)),
        forall|b: int|
            log[n].pos <= b < log[n].pos + log[n].len ==> #[trigger] fresh(m, log.take(n), b),
        0 < log[n].len,
{
    let before = log.take(n);
    let v = played(m, before, SectorStatus::NonTrimmed);
    let s = copy_sweep(p, m, before);
    let a = log[n];
    lemma_read(p, m, log, n);
    assert forall|b: int| 0 <= b < m.len() implies #[trigger] fresh(m, before, b) == (v[b]
        == SectorStatus::NonTried) by {
        lemma_fresh(m, before, b);
    }
    assert(v[a.end() - 1] == SectorStatus::NonTried);
    assert(fresh(m, before, a.end() - 1));
}

proof fn lemma_skips(opts: ImagingOptions, cluster: int, k: nat)
    requires
        k >= 1,
        cluster > 0,
    ensures
        skip_after(opts, cluster, k + 1) == if 2 * skip_after(opts, cluster, k)
            < opts.max_skip_size {
            2 * skip_after(opts, cluster, k)
        } else {
            opts.max_skip_size as int
        },
        skip_after(opts, cluster, k) >= 0,
{
    let first = if opts.skip_size > cluster {
        opts.skip_size as int
    } else {
        cluster
    };
    vstd::arithmetic::power2::lemma2_to64();
    lemma_pow2_unfold(k);
    let x = pow2((k - 1) as nat) as int;
    assert(first * pow2(k) as int == 2 * (first * x)) by (nonlinear_arith)
        requires
            pow2(k) as int == 2 * x,
    ;
    assert(first * x >= 0) by (nonlinear_arith)
        requires
            first > 0,
            x >= 0,
    ;
    if k == 1 {
        assert(first * 1 == first) by (nonlinear_arith);
    }
}

proof fn lemma_multiples(a: int, b: int, ss: int)
    requires
        ss > 0,
        a % ss == 0,
        b % ss == 0,
        a < b,
    ensures
        a + ss <= b,
{
    vstd::arithmetic::div_mod::lemma_fundamental_div_mod(a, ss);
    vstd::arithmetic::div_mod::lemma_fundamental_div_mod(b, ss);
    let x = a / ss;
    let y = b / ss;
    assert(ss * x + ss <= ss * y) by (nonlinear_arith)
        requires
            ss * x < ss * y,
            ss > 0,
    ;
}

proof fn lemma_one_cluster(opts: ImagingOptions, ss: int, n: int)
    requires
        ss > 0,
        is_cluster(opts, ss, n),
    ensures
        n == copy_plan(opts, ss).cluster,
{
    let c = copy_plan(opts, ss).cluster;
    lemma_plan(opts, ss);
    if n < c {
        lemma_multiples(n, c, ss);
    }
    if c < n {
        lemma_multiples(c, n, ss);
    }
}

proof fn lemma_sweep_bounds(p: CopyPlan, m: Seq<SectorStatus>, log: Seq<Attempt>)
    requires
        p.first_skip >= 0,
        p.max_skip >= 0,
        is_copy_log(p, m, log),
    ensures
        copy_sweep(p, m, log).at >= 0,
        copy_sweep(p, m, log).skip >= 0,
    decreases log.len(),
{
    if log.len() > 0 {
        lemma_sweep_bounds(p, m, log.drop_last());
    }
}

/// Before a first failed read the sweep has its first skip.
proof fn lemma_first_skip(p: CopyPlan, m: Seq<SectorStatus>, log: Seq<Attempt>, i: int)
    requires
        is_copy_log(p, m, log),
        0 <= i <= log.len(),
        i == 0 || log[i - 1].ok,
    ensures
        copy_sweep(p, m, log.take(i)).skip == p.first_skip,
{
    if i == 0 {
        assert(log.take(0) =~= Seq::empty());
    } else {
        lemma_read(p, m, log, i - 1);
        assert(log.take(i - 1 + 1) =~= log.take(i));
    }
}

/// The reads that failed in a row went on in one sweep: each came at least
/// as far behind the one before as the sweep skipped.
pub open spec fn in_one_sweep(
    opts: ImagingOptions,
    cluster: int,
    log: Seq<Attempt>,
    i: int,
    j: int,
) -> bool {
    forall|x: int|
        #![trigger log[x]]
        i <= x < j ==> if opts.reverse {
            log[x + 1].end() <= log[x].pos - skip_after(opts, cluster, (x - i + 1) as nat)
        } else {
            log[x + 1].pos >= log[x].end() + skip_after(opts, cluster, (x - i + 1) as nat)
        }
}

proof fn lemma_streak(
    opts: ImagingOptions,
    ss: int,
    m: Seq<SectorStatus>,
    log: Seq<Attempt>,
    i: int,
    j: int,
)
    requires
        ss > 0,
        is_copy_log(copy_plan(opts, ss), m, log),
        failed_in_a_row(log, i, j),
        in_one_sweep(opts, copy_plan(opts, ss).cluster, log, i, j),
    ensures
        ({
            let p = copy_plan(opts, ss);
            let k = (j - i + 1) as nat;
            let n = skip_after(opts, p.cluster, k);
            copy_sweep(p, m, log.take(j + 1)) == (Sweep {
                at: if !opts.reverse {
                    log[j].end() + n
                } else if log[j].pos > n {
                    log[j].pos - n
                } else {
                    0
                },
                skip: skip_after(opts, p.cluster, k + 1),
            })
        }),
    decreases j - i,
{
    let p = copy_plan(opts, ss);
    let k = (j - i + 1) as nat;
    lemma_plan(opts, ss);
    lemma_read(p, m, log, j);
    lemma_skips(opts, p.cluster, k);
    assert(!log[j].ok);
    let before = log.take(j);
    let v = played(m, before, SectorStatus::NonTrimmed);
    let s = copy_sweep(p, m, before);
    if j == i {
        lemma_first_skip(p, m, log, i);
        assert(turned(p, v, s).skip == p.first_skip);
    } else {
        assert(failed_in_a_row(log, i, j - 1)) by {
            assert forall|x: int| i <= x <= j - 1 implies !(#[trigger] log[x]).ok by {}
        }
        lemma_skips(opts, p.cluster, (k - 1) as nat);
        lemma_streak(opts, ss, m, log, i, j - 1);
        assert(log.take(j - 1 + 1) =~= before);
        lemma_part_of_log(p, m, log, j);
        lemma_sweep_bounds(p, m, before);
        let n = skip_after(opts, p.cluster, (j - 1 - i + 1) as nat);
        if opts.reverse {
            lemma_backward_read(p, m, log, j);
            assert(log[j - 1 + 1].end() <= log[j - 1].pos - n);
        } else {
            lemma_forward_read(p, m, log, j);
            assert(log[j - 1 + 1].pos >= log[j - 1].end() + n);
        }
        assert(turned(p, v, s) == s);
    }
}

/// Bad areas are skipped: after failed reads in a row the copy pass goes on
/// as far behind the last of them as [`skip_after`] tells, or before it
/// when it sweeps backwards. What it skipped comes when nothing else is
/// left.
pub proof fn lemma_bad_areas_are_skipped(
    opts: ImagingOptions,
    ss: int,
    cluster: int,
    m: Seq<SectorStatus>,
    log: Seq<Attempt>,
    i: int,
    j: int,
)
    requires
        ss > 0,
        is_cluster(opts, ss, cluster),
        is_copy_log(copy_plan(opts, ss), m, log),
        failed_in_a_row(log, i, j),
        in_one_sweep(opts, cluster, log, i, j),
        j + 1 < log.len(),
    ensures
        ({
            let n = skip_after(opts, cluster, (j - i + 1) as nat);
            if opts.reverse {
                goes_back_to(
                    m,
                    log.take(j + 1),
                    if log[j].pos > n {
                        log[j].pos - n
                    } else {
                        0
                    },
                    log[j + 1].end(),
                )
            } else {
                goes_on_at(m, log.take(j + 1), log[j].end() + n, log[j + 1].pos)
            }
        }),
{
    let p = copy_plan(opts, ss);
    lemma_one_cluster(opts, ss, cluster);
    lemma_plan(opts, ss);
    lemma_streak(opts, ss, m, log, i, j);
    lemma_part_of_log(p, m, log, j + 1);
    lemma_sweep_bounds(p, m, log.take(j + 1));
    if opts.reverse {
        lemma_backward_read(p, m, log, j + 1);
    } else {
        lemma_forward_read(p, m, log, j + 1);
    }
}

/// After a read that succeeded the copy pass goes on right behind it, or
/// before it when it sweeps backwards; and it starts at an end of the map.
pub proof fn lemma_good_areas_are_read_through(
    opts: ImagingOptions,
    ss: int,
    m: Seq<SectorStatus>,
    log: Seq<Attempt>,
    j: int,
)
    requires
        ss > 0,
        is_copy_log(copy_plan(opts, ss), m, log),
        0 <= j < log.len(),
        j > 0 ==> log[j - 1].ok,
    ensures
        opts.reverse ==> goes_back_to(
            m,
            log.take(j),
            if j == 0 {
                m.len() as int
            } else {
                log[j - 1].pos
            },
            log[j].end(),
        ),
        !opts.reverse ==> goes_on_at(
            m,
            log.take(j),
            if j == 0 {
                0
            } else {
                log[j - 1].end()
            },
            log[j].pos,
        ),
{
    let p = copy_plan(opts, ss);
    lemma_plan(opts, ss);
    lemma_part_of_log(p, m, log, j);
    lemma_sweep_bounds(p, m, log.take(j));
    if j == 0 {
        assert(log.take(0) =~= Seq::empty());
    } else {
        lemma_read(p, m, log, j - 1);
        assert(log.take(j - 1 + 1) =~= log.take(j));
    }
    if opts.reverse {
        lemma_backward_read(p, m, log, j);
    } else {
        lemma_forward_read(p, m, log, j);
    }
}

/// The copy pass reads fresh bytes, a cluster at a time or as many as there
/// are; backwards, a read begins at a sector boundary, or where the fresh
/// bytes do.
pub proof fn lemma_copying_reads_clusters(
    opts: ImagingOptions,
    ss: int,
    cluster: int,
    m: Seq<SectorStatus>,
    log: Seq<Attempt>,
    j: int,
)
    requires
        ss > 0,
        is_cluster(opts, ss, cluster),
        is_copy_log(copy_plan(opts, ss), m, log),
        0 <= j < log.len(),
    ensures
        0 <= log[j].pos,
        log[j].len > 0,
        log[j].end() <= m.len(),
        forall|b: int| log[j].pos <= b < log[j].end() ==> #[trigger] fresh(m, log.take(j), b),
        !opts.reverse ==> log[j].len <= cluster && (log[j].len == cluster || !fresh(
            m,
            log.take(j),
            log[j].end(),
        )),
        opts.reverse ==> {
            let first = if log[j].end() > cluster {
                log[j].end() - cluster
            } else {
                0
            };
            ||| log[j].pos % ss == 0 && log[j].pos <= first < log[j].pos + ss
            ||| log[j].pos > 0 && !fresh(m, log.take(j), log[j].pos - 1) && log[j].pos + ss > first
        },
{
    let p = copy_plan(opts, ss);
    lemma_one_cluster(opts, ss, cluster);
    lemma_plan(opts, ss);
    lemma_part_of_log(p, m, log, j);
    lemma_sweep_bounds(p, m, log.take(j));
    lemma_read(p, m, log, j);
    if opts.reverse {
        lemma_backward_read(p, m, log, j);
        let first = if log[j].end() > cluster {
            log[j].end() - cluster
        } else {
            0
        };
        let q = first / ss;
        vstd::arithmetic::div_mod::lemma_fundamental_div_mod(first, ss);
        vstd::arithmetic::div_mod::lemma_mod_bound(first, ss);
        vstd::arithmetic::div_mod::lemma_mod_multiples_basic(q, ss);
        assert(ss * q == q * ss) by (nonlinear_arith);
        if log[j].pos > 0 {
            lemma_fresh(m, log.take(j), log[j].pos - 1);
        }
    } else {
        lemma_forward_read(p, m, log, j);
    }
}

} // verus!
