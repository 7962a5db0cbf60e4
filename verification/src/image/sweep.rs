//! Where the copy pass reads next: the clusters of a sweep in either
//! direction, and how far it skips after a read error.

use super::progress::sector_start;
use crate::map::{
    is_next_run, lemma_none_after, lemma_none_before, lemma_run_is_area, none_before, Extent,
    RescueMap, SectorStatus,
};
use vstd::prelude::*;

verus! {

/// The read size of the copy pass: the largest multiple of the sector size
/// up to `cluster_size`, and at least one sector.
pub open spec fn cluster_len(cluster_size: int, ss: int) -> int {
    sector_start(
        if cluster_size > ss {
            cluster_size
        } else {
            ss
        },
        ss,
    )
}

/// The largest multiple of `align` up to `v`.
pub fn align_down(v: u64, align: u64) -> (r: u64)
    requires
        align > 0,
    ensures
        r == sector_start(v as int, align as int),
        r <= v < r + align,
        r % align == 0,
{
    proof {
        vstd::arithmetic::div_mod::lemma_fundamental_div_mod(v as int, align as int);
        vstd::arithmetic::div_mod::lemma_mod_bound(v as int, align as int);
        assert(align * (v / align) == (v / align) * align) by (nonlinear_arith);
        vstd::arithmetic::div_mod::lemma_mod_multiples_basic((v / align) as int, align as int);
    }
    v / align * align
}

/// All bytes of `[a, b)` are non-tried.
pub open spec fn untried(v: Seq<SectorStatus>, a: int, b: int) -> bool {
    forall|i: int| a <= i < b ==> #[trigger] v[i] == SectorStatus::NonTried
}

/// No byte of `[a, b)` is non-tried.
pub open spec fn all_tried(v: Seq<SectorStatus>, a: int, b: int) -> bool {
    forall|i: int| a <= i < b ==> #[trigger] v[i] != SectorStatus::NonTried
}

/// `[s, s + l)` is what a forward sweep at `pos` reads: from the first
/// non-tried byte on, as far as bytes are non-tried, up to one cluster.
pub open spec fn is_forward_cluster(
    v: Seq<SectorStatus>,
    pos: int,
    cluster: int,
    s: int,
    l: int,
) -> bool {
    &&& 0 <= pos <= s
    &&& 0 < l <= cluster
    &&& s + l <= v.len()
    &&& all_tried(v, pos, s)
    &&& untried(v, s, s + l)
    &&& l == cluster || s + l == v.len() || v[s + l] != SectorStatus::NonTried
}

/// `[s, s + l)` is what a reverse sweep at `pos` reads: up to the last
/// non-tried byte before `pos`, from the sector boundary at or below one
/// cluster further down, or from where the non-tried bytes start.
pub open spec fn is_reverse_cluster(
    v: Seq<SectorStatus>,
    pos: int,
    cluster: int,
    ss: int,
    s: int,
    l: int,
) -> bool {
    let end = s + l;
    let low = sector_start(
        if end > cluster {
            end - cluster
        } else {
            0
        },
        ss,
    );
    &&& 0 <= s
    &&& 0 < l
    &&& end <= pos
    &&& end <= v.len()
    &&& all_tried(v, end, if pos < v.len() { pos } else { v.len() as int })
    &&& untried(v, s, end)
    &&& low <= s
    &&& s == low || (s > 0 && v[s - 1] != SectorStatus::NonTried)
}

/// The next range that a forward sweep at `pos` reads.
pub fn next_forward(map: &RescueMap, pos: u64, cluster: u64) -> (r: Option<(u64, u64)>)
    requires
        map.wf(),
        cluster > 0,
    ensures
        match r {
            Some((s, l)) => is_forward_cluster(
                map@,
                pos as int,
                cluster as int,
                s as int,
                l as int,
            ),
            None => all_tried(map@, pos as int, map.size as int),
        },
{
    match map.next_range(SectorStatus::NonTried, pos) {
        Some(ext) => {
            let ghost k = choose|k: int| #[trigger]
                is_next_run(map.runs(), k, SectorStatus::NonTried, pos as int) && map.runs()[k]
                    == ext;
            proof {
                lemma_run_is_area(*map, k);
                lemma_none_after(*map, k, SectorStatus::NonTried, pos as int);
            }
            let start: u64 = if ext.start > pos {
                ext.start
            } else {
                pos
            };
            let rest: u64 = ext.end() - start;
            let len: u64 = if cluster < rest {
                cluster
            } else {
                rest
            };
            Some((start, len))
        },
        None => {
            proof {
                lemma_none_after(
                    *map,
                    map.runs().len() as int,
                    SectorStatus::NonTried,
                    pos as int,
                );
            }
            None
        },
    }
}

/// The last extent with `status` that starts before `pos`.
fn prev_range(map: &RescueMap, status: SectorStatus, pos: u64) -> (r: Option<Extent>)
    requires
        map.wf(),
    ensures
        match r {
            Some(e) => exists|k: int|
                0 <= k < map.runs().len() && #[trigger] map.runs()[k] == e && e.status == status
                    && e.start < pos && none_before(map.runs(), k + 1, status, pos as int),
            None => none_before(map.runs(), 0, status, pos as int),
        },
{
    let mut k: usize = map.extents.len();
    while k > 0
        invariant
            k <= map.extents@.len(),
            map.wf(),
            none_before(map.runs(), k as int, status, pos as int),
        decreases k,
    {
        let e: Extent = map.extents[k - 1];
        assert(map.runs()[k - 1] == e);
        if e.status == status && e.start < pos {
            return Some(e);
        }
        k = k - 1;
    }
    None
}

/// The next range that a reverse sweep at `pos` reads.
pub fn next_reverse(map: &RescueMap, pos: u64, cluster: u64, ss: u64) -> (r: Option<(u64, u64)>)
    requires
        map.wf(),
        cluster > 0,
        ss > 0,
    ensures
        match r {
            Some((s, l)) => is_reverse_cluster(
                map@,
                pos as int,
                cluster as int,
                ss as int,
                s as int,
                l as int,
            ),
            None => all_tried(
                map@,
                0,
                if pos < map.size {
                    pos as int
                } else {
                    map.size as int
                },
            ),
        },
{
    match prev_range(map, SectorStatus::NonTried, pos) {
        Some(ext) => {
            let ghost k = choose|k: int|
                0 <= k < map.runs().len() && #[trigger] map.runs()[k] == ext && none_before(
                    map.runs(),
                    k + 1,
                    SectorStatus::NonTried,
                    pos as int,
                );
            proof {
                lemma_run_is_area(*map, k);
                lemma_none_before(*map, k + 1, SectorStatus::NonTried, pos as int);
            }
            let end: u64 = if ext.end() < pos {
                ext.end()
            } else {
                pos
            };
            let low: u64 = align_down(end.saturating_sub(cluster), ss);
            let start: u64 = if low > ext.start {
                low
            } else {
                ext.start
            };
            Some((start, end - start))
        },
        None => {
            proof {
                lemma_none_before(*map, 0, SectorStatus::NonTried, pos as int);
            }
            None
        },
    }
}

/// How far to skip after one more read error: twice as far, up to the cap.
pub fn next_skip(skip: u64, max_skip: u64) -> (r: u64)
    ensures
        r == if 2 * skip < max_skip {
            2 * skip
        } else {
            max_skip as int
        },
{
    let twice: u64 = skip.saturating_add(skip);
    if twice < max_skip {
        twice
    } else {
        max_skip
    }
}

} // verus!
