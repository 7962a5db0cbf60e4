//! The four pass algorithms. Each operates on (source, map, sink) and
//! returns `Ok(true)` when interrupted by the stop flag.
//!
//! - copy: large sequential reads, skipping ahead on errors (get the
//!   easy data first, like ddrescue's copy phase)
//! - trim: narrow each failed block from both edges, sector by sector
//! - scrape: read every remaining sector of the interior
//! - retry: optional extra attempts on bad sectors, alternating direction

use super::progress::{
    aligned, byte_step, dead, lemma_advances_refl, lemma_change_on_boundary, lemma_image_stays,
    lemma_image_written, lemma_marked_aligned, lemma_one_sector, on_sectors, sound,
};
use super::sink::{ImageSink, SinkOp};
use super::source::{still_readable, SectorSource};
use super::sweep::{
    align_down, cluster_len, is_forward_cluster, is_reverse_cluster, next_forward, next_reverse,
    next_skip,
};
use super::trace::{
    copy_place, copy_plan, copy_sweep, counted, failures, is_copy_log, is_last_sector,
    is_next_sector, is_retry_log, is_sector_log, is_trim_log, led, led_and_more, lemma_failures,
    lemma_first_with, lemma_first_without, lemma_led_push, lemma_push, lowest, may_end_so,
    may_happen, none_within, nothing_ahead, place_after, played, reached, read_step, retried_all,
    sweep_after, sweep_start, taken_up, trim_state, turned, Attempt, CopyPlan, Sweep, Trim,
};
use super::{
    broken_off, dependable, lemma_broken_off_trans, lemma_stepped_trans, stepped, takes_any_map,
    working, ImagingEngine, ImagingError,
};
use crate::device::AlignedBuf;
use crate::map::{
    is_area, lemma_ranges_list_areas, lemma_tally_drops, lemma_tally_zero, lists_areas, marked,
    settled, tally, Extent, RescueMap, SectorStatus,
};
use std::io;
use std::sync::atomic::{AtomicBool, Ordering};
use vstd::prelude::*;

verus! {

pub const BUF_ALIGN: usize = 4096;

/// A relaxed load of the flag gave `value`. Other threads may set the flag
/// at any time, so one load may give another value than the next.
pub open spec fn flag_gave(stop: &AtomicBool, value: bool) -> bool {
    call_ensures(AtomicBool::load, (stop, Ordering::Relaxed), value)
}

/// The reads of a log, and one more where a write failed, may have turned
/// one source into the other.
pub open spec fn came_to<S: SectorSource>(s: S, log: Seq<Attempt>, t: S, written: bool) -> bool {
    if written {
        led(s, log, t)
    } else {
        led_and_more(s, log, t)
    }
}

/// A pass that read anything looked at the flag before and saw it unset.
pub open spec fn looked(stop: &AtomicBool, log: Seq<Attempt>) -> bool {
    log.len() > 0 ==> flag_gave(stop, false)
}

/// Whether a stop was asked for; another thread may do so at any time.
pub(crate) fn stopped(stop: &AtomicBool) -> (r: bool)
    ensures
        flag_gave(stop, r),
{
    stop.load(Ordering::Relaxed)
}

/// The error is the one that this operation of the sink gave.
pub open spec fn gave_error<K: ImageSink>(
    before: K,
    op: SinkOp,
    after: K,
    e: ImagingError,
) -> bool {
    e matches ImagingError::Sink(cause) && before.may_return(
        op,
        &after,
        Err::<(), io::Error>(cause),
    )
}

/// The error is the one that the last write to the sink gave.
pub open spec fn write_failed<K: ImageSink>(sink: K, e: ImagingError) -> bool {
    exists|before: K, offset: int, data: Seq<u8>| #[trigger]
        gave_error(before, (SinkOp::Write { offset, data }), sink, e)
}

/// Read `[pos, pos + len)`; on success write it out and mark it rescued, on
/// failure mark it `on_failure`. Returns whether the read succeeded.
fn attempt<S: SectorSource, K: ImageSink>(
    engine: &mut ImagingEngine<S, K>,
    pos: u64,
    len: u64,
    buf: &mut AlignedBuf,
    map: &mut RescueMap,
    on_failure: SectorStatus,
    Ghost(al): Ghost<bool>,
) -> (r: Result<bool, ImagingError>)
    requires
        working(*old(engine), *old(map)),
        old(buf).wf(),
        0 < len <= old(buf)@.len(),
        pos + len <= old(map).size,
        on_failure != SectorStatus::Rescued,
        forall|i: int|
            pos <= i < pos + len ==> #[trigger] old(map)@[i] != SectorStatus::Rescued && (
            old(map)@[i] == SectorStatus::Bad ==> on_failure == SectorStatus::Bad),
        al ==> aligned(old(map)@, old(engine).src.sector_len() as int) && on_sectors(
            pos as int,
            len as int,
            old(engine).src.sector_len() as int,
            old(map).size as int,
        ),
        on_failure == SectorStatus::Bad ==> len <= old(engine).src.sector_len(),
    ensures
        final(buf).wf(),
        final(buf)@.len() == old(buf)@.len(),
        final(map).current_pos == old(map).current_pos,
        match r {
            Ok(ok) => {
                &&& stepped(al, *old(engine), *old(map), *final(engine), *final(map))
                &&& final(map)@ == marked(
                    old(map)@,
                    pos as int,
                    len as int,
                    if ok {
                        SectorStatus::Rescued
                    } else {
                        on_failure
                    },
                )
                &&& final(engine).read_errors == counted(
                    old(engine).read_errors,
                    if ok {
                        0int
                    } else {
                        1
                    },
                )
                &&& may_end_so(
                    old(engine).src,
                    Attempt { pos: pos as int, len: len as int, ok },
                )
                &&& read_step(
                    old(engine).src,
                    Attempt { pos: pos as int, len: len as int, ok },
                    final(engine).src,
                )
            },
            Err(e) => {
                &&& broken_off(al, *old(engine), *old(map), *final(engine), *final(map))
                &&& gave_error(
                    old(engine).sink,
                    SinkOp::Write {
                        offset: pos as int,
                        data: old(engine).src.data().subrange(pos as int, pos + len),
                    },
                    final(engine).sink,
                    e,
                )
                &&& *final(map) == *old(map)
                &&& final(engine).read_errors == old(engine).read_errors
                &&& read_step(
                    old(engine).src,
                    Attempt { pos: pos as int, len: len as int, ok: true },
                    final(engine).src,
                )
            },
        },
        dependable(old(engine).sink, old(map).size as int) ==> r is Ok,
{
    let ghost m0 = map@;
    let ghost src0 = engine.src;
    let ghost img0 = engine.sink.image();
    let ghost ss = engine.src.sector_len() as int;
    let all = buf.as_mut_slice();
    assert(all.len() <= usize::MAX);
    let (data, _rest) = all.split_at_mut(len as usize);
    let ghost before = data@;
    let got = engine.src.read_at(pos, data);
    proof {
        let a = Attempt { pos: pos as int, len: len as int, ok: got is Ok };
        assert(before.len() == a.len);
        assert(src0.may_read(a.pos, before, &engine.src, data@, got));
        assert(read_step(src0, a, engine.src));
    }
    match got {
        Ok(()) => {
            proof {
                assert forall|i: int| pos <= i < pos + len implies !dead(src0, i) by {
                    if dead(src0, i) {
                        assert(src0.unreadable(pos as int, len as int));
                    }
                }
            }
            match engine.sink.write_at(pos, data) {
                Ok(()) => {},
                Err(e) => {
                    proof {
                        lemma_advances_refl(al, src0, img0, m0);
                    }
                    return Err(ImagingError::Sink(e));
                },
            }
            map.mark(pos, len, SectorStatus::Rescued);
            proof {
                if al {
                    lemma_marked_aligned(m0, ss, pos as int, len as int, SectorStatus::Rescued);
                }
                lemma_image_written(img0, m0, pos as int, len as int, src0.data());
                assert forall|i: int| 0 <= i < map@.len() implies #[trigger] byte_step(
                    al,
                    src0,
                    m0,
                    map@,
                    i,
                ) by {
                    assert(map@[i] == marked(m0, pos as int, len as int, SectorStatus::Rescued)[i]);
                }
            }
            Ok(true)
        },
        Err(_) => {
            engine.note_read_error();
            map.mark(pos, len, on_failure);
            proof {
                if al {
                    lemma_marked_aligned(m0, ss, pos as int, len as int, on_failure);
                }
                lemma_image_stays(img0, m0, map@, src0.data());
                assert forall|i: int| 0 <= i < map@.len() implies #[trigger] byte_step(
                    al,
                    src0,
                    m0,
                    map@,
                    i,
                ) by {
                    assert(map@[i] == marked(m0, pos as int, len as int, on_failure)[i]);
                    if al && map@[i] == SectorStatus::Bad && m0[i] != SectorStatus::Bad {
                        lemma_one_sector(pos as int, len as int, ss, m0.len() as int, i);
                    }
                }
            }
            Ok(false)
        },
    }
}

/// The map is aligned to the sectors of the source.
pub open spec fn starts_aligned<S: SectorSource, K: ImageSink>(
    e: ImagingEngine<S, K>,
    m: RescueMap,
) -> bool {
    aligned(m@, e.src.sector_len() as int)
}

/// Bytes of `m0` with another status than `st` are the same in `m1`.
pub open spec fn only_from(
    m0: Seq<SectorStatus>,
    m1: Seq<SectorStatus>,
    st: SectorStatus,
) -> bool {
    forall|i: int| 0 <= i < m1.len() && m0[i] != st ==> #[trigger] m1[i] == m0[i]
}

/// No byte has the status `st`.
pub open spec fn none_left(m: Seq<SectorStatus>, st: SectorStatus) -> bool {
    forall|i: int| 0 <= i < m.len() ==> #[trigger] m[i] != st
}

/// Move the map's current position.
fn set_position(map: &mut RescueMap, pos: u64)
    requires
        old(map).wf(),
    ensures
        final(map)@ == old(map)@,
        final(map).wf(),
        final(map).size == old(map).size,
        final(map).current_phase == old(map).current_phase,
        final(map).pass == old(map).pass,
        final(map).current_pos == pos,
{
    map.current_pos = pos;
    assert(map@ =~= old(map)@);
}

/// In an aligned map a stretch of one status starts on a sector boundary,
/// and ends on one or at the end of the map.
proof fn lemma_area_on_sectors(m: Seq<SectorStatus>, ss: int, e: Extent)
    requires
        ss > 0,
        aligned(m, ss),
        is_area(m, e),
    ensures
        on_sectors(e.start as int, e.len as int, ss, m.len() as int),
{
    if e.start > 0 {
        assert(m[e.start as int] == e.status);
        lemma_change_on_boundary(m, ss, e.start as int);
    } else {
        vstd::arithmetic::div_mod::lemma_small_mod(0, ss as nat);
    }
    if e.spec_end() < m.len() {
        assert(m[e.spec_end() - 1] == e.status);
        lemma_change_on_boundary(m, ss, e.spec_end());
    }
}

/// Between two neighbouring stretches no byte has their status.
proof fn lemma_gap_before(
    v: Seq<SectorStatus>,
    exts: Seq<Extent>,
    st: SectorStatus,
    k: int,
    done: int,
)
    requires
        lists_areas(v, exts, st),
        0 <= k <= exts.len(),
        k > 0 ==> done == exts[k - 1].spec_end(),
        k == 0 ==> done == 0,
    ensures
        k < exts.len() ==> done <= exts[k].start,
        forall|i: int|
            done <= i < if k < exts.len() {
                exts[k].start as int
            } else {
                v.len() as int
            } ==> #[trigger] v[i] != st,
{
    if 0 < k < exts.len() {
        assert(exts[k - 1].spec_end() <= exts[k].start);
    }
    let bound = if k < exts.len() {
        exts[k].start as int
    } else {
        v.len() as int
    };
    if k < exts.len() {
        assert(is_area(v, exts[k]));
    }
    assert forall|i: int| done <= i < bound implies #[trigger] v[i] != st by {
        if v[i] == st {
            let j = choose|j: int|
                0 <= j < exts.len() && (#[trigger] exts[j]).start <= i < exts[j].spec_end();
            if j < k - 1 {
                assert(exts[j].spec_end() <= exts[k - 1].start);
            } else if j > k {
                assert(exts[k].spec_end() <= exts[j].start);
            }
        }
    }
}

/// One sector further from a boundary is a boundary, unless the range ends
/// before.
proof fn lemma_next_sector(lo: int, hi: int, ss: int, size: int)
    requires
        ss > 0,
        0 <= lo < hi <= size,
        lo % ss == 0,
        hi % ss == 0 || hi == size,
    ensures
        hi - lo >= ss ==> (lo + ss) % ss == 0 && on_sectors(lo, ss, ss, size),
        hi - lo < ss ==> hi == size && on_sectors(lo, hi - lo, ss, size),
{
    vstd::arithmetic::div_mod::lemma_mod_add_multiples_vanish(lo, ss);
    if hi - lo < ss && hi % ss == 0 {
        super::progress::lemma_multiple(lo, ss);
        super::progress::lemma_multiple(hi, ss);
        let a = lo / ss;
        let b = hi / ss;
        assert(b > a) by (nonlinear_arith)
            requires
                b * ss > a * ss,
                ss > 0,
        ;
        assert(b * ss >= (a + 1) * ss) by (nonlinear_arith)
            requires
                b >= a + 1,
                ss > 0,
        ;
        assert((a + 1) * ss == a * ss + ss) by (nonlinear_arith);
    }
}

/// The engine counted the failed reads of the log, and its reads ended as the
/// source promises.
pub open spec fn tells<S: SectorSource, K: ImageSink>(
    e0: ImagingEngine<S, K>,
    e1: ImagingEngine<S, K>,
    log: Seq<Attempt>,
) -> bool {
    &&& e1.read_errors == counted(e0.read_errors, failures(log))
    &&& may_happen(e0.src, log)
}

/// One more read at the end of what the log tells.
proof fn lemma_tells<S: SectorSource, K: ImageSink>(
    e0: ImagingEngine<S, K>,
    e1: ImagingEngine<S, K>,
    e2: ImagingEngine<S, K>,
    log: Seq<Attempt>,
    a: Attempt,
)
    requires
        tells(e0, e1, log),
        led(e0.src, log, e1.src),
        read_step(e1.src, a, e2.src),
        still_readable(e0.src, e1.src),
        e1.src.data() == e0.src.data(),
        may_end_so(e1.src, a),
        e2.read_errors == counted(
            e1.read_errors,
            if a.ok {
                0int
            } else {
                1
            },
        ),
    ensures
        tells(e0, e2, log.push(a)),
        led(e0.src, log.push(a), e2.src),
{
    lemma_failures(log);
    lemma_led_push(e0.src, log, e1.src, a, e2.src);
    lemma_push(Seq::empty(), log, a, SectorStatus::Bad);
    assert forall|j: int| 0 <= j < log.push(a).len() implies may_end_so(
        e0.src,
        #[trigger] log.push(a)[j],
    ) by {
        if j < log.len() {
            assert(may_end_so(e0.src, log[j]));
        }
    }
}

/// A scrape pass with this log took engine and map from one state to the
/// next.
pub open spec fn scraped<S: SectorSource, K: ImageSink>(
    e0: ImagingEngine<S, K>,
    m0: RescueMap,
    e1: ImagingEngine<S, K>,
    m1: RescueMap,
    log: Seq<Attempt>,
) -> bool {
    &&& is_sector_log(m0@, SectorStatus::NonScraped, e0.src.sector_len() as int, log)
    &&& m1@ == played(m0@, log, SectorStatus::Bad)
    &&& m1.current_pos == place_after(log, m0.current_pos)
    &&& tells(e0, e1, log)
}

pub fn scrape_pass<S: SectorSource, K: ImageSink, F: FnMut(&RescueMap)>(
    engine: &mut ImagingEngine<S, K>,
    map: &mut RescueMap,
    stop: &AtomicBool,
    on_progress: &mut F,
) -> (r: Result<bool, ImagingError>)
    requires
        working(*old(engine), *old(map)),
        takes_any_map(*old(on_progress)),
    ensures
        takes_any_map(*final(on_progress)),
        match r {
            Ok(interrupted) => {
                &&& stepped(
                    starts_aligned(*old(engine), *old(map)),
                    *old(engine),
                    *old(map),
                    *final(engine),
                    *final(map),
                )
                &&& only_from(old(map)@, final(map)@, SectorStatus::NonScraped)
                &&& forall|i: int|
                    0 <= i < final(map)@.len() && #[trigger] final(map)@[i] != old(map)@[i]
                        ==> settled(final(map)@[i])
                &&& !interrupted ==> none_left(final(map)@, SectorStatus::NonScraped)
            },
            Err(_) => broken_off(
                starts_aligned(*old(engine), *old(map)),
                *old(engine),
                *old(map),
                *final(engine),
                *final(map),
            ),
        },
        exists|log: Seq<Attempt>| #[trigger]
            scraped(*old(engine), *old(map), *final(engine), *final(map), log) && looked(stop, log)
                && came_to(old(engine).src, log, final(engine).src, r is Ok) && (
            r matches Ok(false) ==> none_within(
                old(map)@,
                SectorStatus::NonScraped,
                reached(log),
                old(map)@.len() as int,
            )),
        r matches Ok(true) ==> flag_gave(stop, true),
        r matches Err(e) ==> write_failed(final(engine).sink, e),
        dependable(old(engine).sink, old(map).size as int) ==> r is Ok,
{
    let ghost e0 = *engine;
    let ghost m0 = *map;
    let ghost al = starts_aligned(*engine, *map);
    let ghost ssz = engine.src.sector_len() as int;
    let ss: u64 = engine.src.sector_size() as u64;
    proof {
        vstd::arithmetic::power2::lemma2_to64();
    }
    let mut buf = AlignedBuf::new(ss as usize, BUF_ALIGN);
    let exts: Vec<Extent> = map.ranges(SectorStatus::NonScraped);
    proof {
        lemma_ranges_list_areas(m0, SectorStatus::NonScraped);
        lemma_advances_refl(al, e0.src, e0.sink.image(), m0@);
    }
    let n: usize = exts.len();
    let mut k: usize = 0;
    let ghost mut done: int = 0;
    let ghost mut log: Seq<Attempt> = Seq::empty();
    while k < n
        invariant
            k <= n,
            n == exts@.len(),
            ss == ssz,
            ssz == e0.src.sector_len(),
            e0 == *old(engine),
            m0 == *old(map),
            al == starts_aligned(e0, m0),
            working(e0, m0),
            lists_areas(m0@, exts@, SectorStatus::NonScraped),
            0 <= done <= m0.size,
            k > 0 ==> done == exts@[k - 1].spec_end(),
            k == 0 ==> done == 0,
            buf.wf(),
            buf@.len() == ss,
            takes_any_map(*on_progress),
            stepped(al, e0, m0, *engine, *map),
            scraped(e0, m0, *engine, *map, log),
            looked(stop, log),
            led(e0.src, log, engine.src),
            reached(log) <= done,
            none_within(m0@, SectorStatus::NonScraped, reached(log), done),
            forall|i: int| 0 <= i < done ==> #[trigger] map@[i] != SectorStatus::NonScraped,
            forall|i: int| done <= i < map@.len() ==> #[trigger] map@[i] == m0@[i],
            only_from(m0@, map@, SectorStatus::NonScraped),
            forall|i: int|
                0 <= i < map@.len() && #[trigger] map@[i] != m0@[i] ==> settled(map@[i]),
        decreases n - k,
    {
        let ext: Extent = exts[k];
        assert(is_area(m0@, ext));
        let end: u64 = ext.end();
        let mut pos: u64 = ext.start;
        proof {
            assert(exts@[k as int] == ext);
            lemma_gap_before(m0@, exts@, SectorStatus::NonScraped, k as int, done);
            if al {
                lemma_area_on_sectors(m0@, ssz, ext);
            }
        }
        while pos < end
            invariant
                ss == ssz,
                ssz == e0.src.sector_len(),
                e0 == *old(engine),
                m0 == *old(map),
                al == starts_aligned(e0, m0),
                working(e0, m0),
                is_area(m0@, ext),
                ext.status == SectorStatus::NonScraped,
                end == ext.spec_end(),
                ext.start <= pos <= end <= m0.size,
                al ==> (pos == end || pos % ss == 0) && (end % ss == 0 || end == m0.size),
                buf.wf(),
                buf@.len() == ss,
                takes_any_map(*on_progress),
                stepped(al, e0, m0, *engine, *map),
                scraped(e0, m0, *engine, *map, log),
                looked(stop, log),
                led(e0.src, log, engine.src),
                reached(log) <= pos,
                none_within(m0@, SectorStatus::NonScraped, reached(log), pos as int),
                forall|i: int| 0 <= i < pos ==> #[trigger] map@[i] != SectorStatus::NonScraped,
                forall|i: int| pos <= i < map@.len() ==> #[trigger] map@[i] == m0@[i],
                only_from(m0@, map@, SectorStatus::NonScraped),
                forall|i: int|
                    0 <= i < map@.len() && #[trigger] map@[i] != m0@[i] ==> settled(map@[i]),
            decreases end - pos,
        {
            if stopped(stop) {
                return Ok(true);
            }
            let len: u64 = if ss < end - pos {
                ss
            } else {
                end - pos
            };
            let ghost e1 = *engine;
            let ghost m1 = *map;
            proof {
                if al {
                    lemma_next_sector(pos as int, end as int, ssz, m0.size as int);
                }
            }
            match attempt(engine, pos, len, &mut buf, map, SectorStatus::Bad, Ghost(al)) {
                Ok(ok) => {
                    proof {
                        let a = Attempt { pos: pos as int, len: len as int, ok };
                        lemma_tells(e0, e1, *engine, log, a);
                        lemma_push(m0@, log, a, SectorStatus::Bad);
                        log = log.push(a);
                    }
                },
                Err(e) => {
                    proof {
                        lemma_broken_off_trans(al, e0, m0, e1, m1, *engine, *map);
                        assert(scraped(e0, m0, *engine, *map, log));
                    }
                    return Err(e);
                },
            }
            set_position(map, pos);
            proof {
                lemma_stepped_trans(al, e0, m0, e1, m1, *engine, *map);
            }
            pos = pos + len;
            on_progress(map);
        }
        proof {
            done = ext.spec_end();
        }
        k = k + 1;
    }
    proof {
        lemma_gap_before(m0@, exts@, SectorStatus::NonScraped, n as int, done);
    }
    Ok(false)
}

/// Leaving bytes for a later pass is a step that reads nothing.
proof fn lemma_left_for_later<S: SectorSource, K: ImageSink>(
    al: bool,
    e: ImagingEngine<S, K>,
    m0: RescueMap,
    m1: RescueMap,
    p: int,
    l: int,
    st: SectorStatus,
)
    requires
        working(e, m0),
        m1.wf(),
        m1.size == m0.size,
        m1.current_phase == m0.current_phase,
        m1.pass == m0.pass,
        m1.current_pos == m0.current_pos,
        m1@ == marked(m0@, p, l, st),
        !settled(st),
        0 <= p,
        0 <= l,
        p + l <= m0.size,
        forall|i: int| p <= i < p + l ==> !settled(#[trigger] m0@[i]),
        al ==> aligned(m0@, e.src.sector_len() as int) && on_sectors(
            p,
            l,
            e.src.sector_len() as int,
            m0.size as int,
        ),
    ensures
        stepped(al, e, m0, e, m1),
{
    if al {
        lemma_marked_aligned(m0@, e.src.sector_len() as int, p, l, st);
    }
    lemma_image_stays(e.sink.image(), m0@, m1@, e.src.data());
    assert forall|i: int| 0 <= i < m1@.len() implies #[trigger] byte_step(
        al,
        e.src,
        m0@,
        m1@,
        i,
    ) by {
        assert(m1@[i] == marked(m0@, p, l, st)[i]);
    }
}

/// A trim pass with this log took engine and map from one state to the next.
pub open spec fn trimmed_by<S: SectorSource, K: ImageSink>(
    e0: ImagingEngine<S, K>,
    m0: RescueMap,
    e1: ImagingEngine<S, K>,
    m1: RescueMap,
    log: Seq<Attempt>,
) -> bool {
    &&& is_trim_log(m0@, e0.src.sector_len() as int, log)
    &&& m1@ == trim_state(m0@, log).m
    &&& m1.current_pos == place_after(log, m0.current_pos)
    &&& tells(e0, e1, log)
}

/// After this log `[lo, hi)` is left of the block that is trimmed.
spec fn is_trim_place(
    m0: Seq<SectorStatus>,
    log: Seq<Attempt>,
    lo: int,
    hi: int,
    back: bool,
) -> bool {
    let t = trim_state(m0, log);
    if lo < hi {
        taken_up(t) == (Trim { m: t.m, lo, hi, back })
    } else {
        t.lo >= t.hi
    }
}

/// Trim one block from both edges. Returns `Ok(true)` when interrupted. The
/// pass began with `pe` and `pm`.
fn trim_extent<S: SectorSource, K: ImageSink, F: FnMut(&RescueMap)>(
    engine: &mut ImagingEngine<S, K>,
    map: &mut RescueMap,
    ext: Extent,
    ss: u64,
    buf: &mut AlignedBuf,
    stop: &AtomicBool,
    on_progress: &mut F,
    log: &mut Ghost<Seq<Attempt>>,
    Ghost(al): Ghost<bool>,
    Ghost(pe): Ghost<ImagingEngine<S, K>>,
    Ghost(pm): Ghost<RescueMap>,
) -> (r: Result<bool, ImagingError>)
    requires
        working(*old(engine), *old(map)),
        takes_any_map(*old(on_progress)),
        old(buf).wf(),
        old(buf)@.len() == ss,
        ss == old(engine).src.sector_len(),
        stepped(al, pe, pm, *old(engine), *old(map)),
        trimmed_by(pe, pm, *old(engine), *old(map), old(log)@),
        looked(stop, old(log)@),
        led(pe.src, old(log)@, old(engine).src),
        0 < ext.len,
        is_trim_place(pm@, old(log)@, ext.start as int, ext.spec_end(), false),
        ext.spec_end() <= old(map).size,
        forall|i: int|
            ext.start <= i < ext.spec_end() ==> #[trigger] old(map)@[i] == SectorStatus::NonTrimmed,
        al ==> aligned(old(map)@, ss as int) && on_sectors(
            ext.start as int,
            ext.len as int,
            ss as int,
            old(map).size as int,
        ),
    ensures
        takes_any_map(*final(on_progress)),
        final(buf).wf(),
        final(buf)@.len() == ss,
        match r {
            Ok(interrupted) => {
                &&& stepped(al, *old(engine), *old(map), *final(engine), *final(map))
                &&& forall|i: int|
                    0 <= i < final(map)@.len() && !(ext.start <= i < ext.spec_end())
                        ==> #[trigger] final(map)@[i] == old(map)@[i]
                &&& forall|i: int|
                    ext.start <= i < ext.spec_end() ==> trimmed_to(#[trigger] final(map)@[i])
                        || (interrupted && final(map)@[i] == SectorStatus::NonTrimmed)
            },
            Err(_) => broken_off(al, *old(engine), *old(map), *final(engine), *final(map)),
        },
        trimmed_by(pe, pm, *final(engine), *final(map), final(log)@),
        looked(stop, final(log)@),
        r is Ok ==> led(pe.src, final(log)@, final(engine).src),
        r is Err ==> led_and_more(pe.src, final(log)@, final(engine).src),
        r matches Ok(false) ==> is_trim_place(
            pm@,
            final(log)@,
            ext.spec_end(),
            ext.spec_end(),
            false,
        ),
        r matches Ok(true) ==> flag_gave(stop, true),
        r matches Err(e) ==> write_failed(final(engine).sink, e),
        dependable(old(engine).sink, old(map).size as int) ==> r is Ok,
{
    let ghost e0 = *engine;
    let ghost m0 = *map;
    let ghost ssz = ss as int;
    let ghost size = map.size as int;
    proof {
        lemma_advances_refl(al, e0.src, e0.sink.image(), m0@);
    }
    let mut lo: u64 = ext.start;
    let mut hi: u64 = ext.end();
    let mut going: bool = true;
    // Forward from the left edge until the first failing sector.
    while going && lo < hi
        invariant
            e0 == *old(engine),
            m0 == *old(map),
            working(e0, m0),
            ss == e0.src.sector_len(),
            ssz == ss,
            size == m0.size,
            ext.start <= lo <= hi <= size,
            hi == ext.spec_end(),
            al ==> (lo == hi || lo % ss == 0) && (hi % ss == 0 || hi == size),
            buf.wf(),
            buf@.len() == ss,
            takes_any_map(*on_progress),
            stepped(al, e0, m0, *engine, *map),
            stepped(al, pe, pm, *engine, *map),
            trimmed_by(pe, pm, *engine, *map, log@),
            looked(stop, log@),
            led(pe.src, log@, engine.src),
            is_trim_place(pm@, log@, lo as int, hi as int, !going),
            forall|i: int| ext.start <= i < lo ==> settled(#[trigger] map@[i]),
            forall|i: int| lo <= i < hi ==> #[trigger] map@[i] == SectorStatus::NonTrimmed,
            forall|i: int|
                0 <= i < map@.len() && !(ext.start <= i < ext.spec_end()) ==> #[trigger] map@[i]
                    == m0@[i],
        decreases hi - lo,
    {
        if stopped(stop) {
            return Ok(true);
        }
        let len: u64 = if ss < hi - lo {
            ss
        } else {
            hi - lo
        };
        let ghost e1 = *engine;
        let ghost m1 = *map;
        proof {
            if al {
                lemma_next_sector(lo as int, hi as int, ssz, size);
            }
        }
        match attempt(engine, lo, len, buf, map, SectorStatus::Bad, Ghost(al)) {
            Ok(ok) => {
                going = ok;
                proof {
                    let a = Attempt { pos: lo as int, len: len as int, ok };
                    lemma_tells(pe, e1, *engine, log@, a);
                    lemma_push(pm@, log@, a, SectorStatus::Bad);
                    log@ = log@.push(a);
                }
            },
            Err(e) => {
                proof {
                    lemma_broken_off_trans(al, e0, m0, e1, m1, *engine, *map);
                }
                return Err(e);
            },
        }
        set_position(map, lo);
        proof {
            lemma_stepped_trans(al, e0, m0, e1, m1, *engine, *map);
            lemma_stepped_trans(al, pe, pm, e1, m1, *engine, *map);
        }
        lo = lo + len;
        on_progress(map);
    }
    // Backward from the right edge until the first failing sector.
    going = true;
    while going && hi > lo
        invariant
            e0 == *old(engine),
            m0 == *old(map),
            working(e0, m0),
            ss == e0.src.sector_len(),
            ssz == ss,
            size == m0.size,
            ext.start <= lo <= hi <= ext.spec_end() <= size,
            al ==> (lo == hi || lo % ss == 0) && (hi % ss == 0 || hi == size),
            buf.wf(),
            buf@.len() == ss,
            takes_any_map(*on_progress),
            stepped(al, e0, m0, *engine, *map),
            stepped(al, pe, pm, *engine, *map),
            going ==> trimmed_by(pe, pm, *engine, *map, log@),
            looked(stop, log@),
            led(pe.src, log@, engine.src),
            is_trim_log(pm@, ss as int, log@),
            map.current_pos == place_after(log@, pm.current_pos),
            tells(pe, *engine, log@),
            going ==> is_trim_place(pm@, log@, lo as int, hi as int, true),
            !going ==> {
                &&& is_trim_place(pm@, log@, hi as int, hi as int, true)
                &&& trim_state(pm@, log@).m == if hi > lo {
                    marked(map@, lo as int, hi - lo, SectorStatus::NonScraped)
                } else {
                    map@
                }
            },
            forall|i: int| ext.start <= i < lo ==> settled(#[trigger] map@[i]),
            forall|i: int| hi <= i < ext.spec_end() ==> settled(#[trigger] map@[i]),
            forall|i: int| lo <= i < hi ==> #[trigger] map@[i] == SectorStatus::NonTrimmed,
            forall|i: int|
                0 <= i < map@.len() && !(ext.start <= i < ext.spec_end()) ==> #[trigger] map@[i]
                    == m0@[i],
        decreases hi - lo,
    {
        if stopped(stop) {
            return Ok(true);
        }
        let down: u64 = align_down(hi - 1, ss);
        let s: u64 = if down > lo {
            down
        } else {
            lo
        };
        let len: u64 = hi - s;
        let ghost e1 = *engine;
        let ghost m1 = *map;
        match attempt(engine, s, len, buf, map, SectorStatus::Bad, Ghost(al)) {
            Ok(ok) => {
                going = ok;
                proof {
                    let a = Attempt { pos: s as int, len: len as int, ok };
                    lemma_tells(pe, e1, *engine, log@, a);
                    lemma_push(pm@, log@, a, SectorStatus::Bad);
                    log@ = log@.push(a);
                }
            },
            Err(e) => {
                proof {
                    lemma_broken_off_trans(al, e0, m0, e1, m1, *engine, *map);
                }
                return Err(e);
            },
        }
        set_position(map, s);
        proof {
            lemma_stepped_trans(al, e0, m0, e1, m1, *engine, *map);
            lemma_stepped_trans(al, pe, pm, e1, m1, *engine, *map);
        }
        hi = s;
        on_progress(map);
    }
    // Whatever remains between the two failures is left for scraping.
    if hi > lo {
        let ghost m1 = *map;
        map.mark(lo, hi - lo, SectorStatus::NonScraped);
        proof {
            lemma_left_for_later(
                al,
                *engine,
                m1,
                *map,
                lo as int,
                hi - lo,
                SectorStatus::NonScraped,
            );
            lemma_stepped_trans(al, e0, m0, *engine, m1, *engine, *map);
        }
        on_progress(map);
    }
    Ok(false)
}

/// What trimming makes of a byte.
pub open spec fn trimmed_to(s: SectorStatus) -> bool {
    settled(s) || s == SectorStatus::NonScraped
}

pub fn trim_pass<S: SectorSource, K: ImageSink, F: FnMut(&RescueMap)>(
    engine: &mut ImagingEngine<S, K>,
    map: &mut RescueMap,
    stop: &AtomicBool,
    on_progress: &mut F,
) -> (r: Result<bool, ImagingError>)
    requires
        working(*old(engine), *old(map)),
        takes_any_map(*old(on_progress)),
    ensures
        takes_any_map(*final(on_progress)),
        match r {
            Ok(interrupted) => {
                &&& stepped(
                    starts_aligned(*old(engine), *old(map)),
                    *old(engine),
                    *old(map),
                    *final(engine),
                    *final(map),
                )
                &&& only_from(old(map)@, final(map)@, SectorStatus::NonTrimmed)
                &&& forall|i: int|
                    0 <= i < final(map)@.len() && #[trigger] final(map)@[i] != old(map)@[i]
                        ==> trimmed_to(final(map)@[i])
                &&& !interrupted ==> none_left(final(map)@, SectorStatus::NonTrimmed)
            },
            Err(_) => broken_off(
                starts_aligned(*old(engine), *old(map)),
                *old(engine),
                *old(map),
                *final(engine),
                *final(map),
            ),
        },
        exists|log: Seq<Attempt>| #[trigger]
            trimmed_by(*old(engine), *old(map), *final(engine), *final(map), log) && looked(
                stop,
                log,
            ) && came_to(old(engine).src, log, final(engine).src, r is Ok),
        r matches Ok(true) ==> flag_gave(stop, true),
        r matches Err(e) ==> write_failed(final(engine).sink, e),
        dependable(old(engine).sink, old(map).size as int) ==> r is Ok,
{
    let ghost e0 = *engine;
    let ghost m0 = *map;
    let ghost al = starts_aligned(*engine, *map);
    let ss: u64 = engine.src.sector_size() as u64;
    proof {
        vstd::arithmetic::power2::lemma2_to64();
    }
    let mut buf = AlignedBuf::new(ss as usize, BUF_ALIGN);
    let exts: Vec<Extent> = map.ranges(SectorStatus::NonTrimmed);
    proof {
        lemma_ranges_list_areas(m0, SectorStatus::NonTrimmed);
        lemma_advances_refl(al, e0.src, e0.sink.image(), m0@);
    }
    let n: usize = exts.len();
    let mut k: usize = 0;
    let ghost mut done: int = 0;
    let mut log: Ghost<Seq<Attempt>> = Ghost(Seq::empty());
    while k < n
        invariant
            k <= n,
            n == exts@.len(),
            ss == e0.src.sector_len(),
            e0 == *old(engine),
            m0 == *old(map),
            al == starts_aligned(e0, m0),
            working(e0, m0),
            lists_areas(m0@, exts@, SectorStatus::NonTrimmed),
            0 <= done <= m0.size,
            k > 0 ==> done == exts@[k - 1].spec_end(),
            k == 0 ==> done == 0,
            buf.wf(),
            buf@.len() == ss,
            takes_any_map(*on_progress),
            stepped(al, e0, m0, *engine, *map),
            trimmed_by(e0, m0, *engine, *map, log@),
            looked(stop, log@),
            led(e0.src, log@, engine.src),
            is_trim_place(m0@, log@, 0, 0, false),
            forall|i: int| 0 <= i < done ==> #[trigger] map@[i] != SectorStatus::NonTrimmed,
            forall|i: int| done <= i < map@.len() ==> #[trigger] map@[i] == m0@[i],
            only_from(m0@, map@, SectorStatus::NonTrimmed),
            forall|i: int|
                0 <= i < map@.len() && #[trigger] map@[i] != m0@[i] ==> trimmed_to(map@[i]),
        decreases n - k,
    {
        let ext: Extent = exts[k];
        proof {
            assert(is_area(m0@, ext));
            lemma_gap_before(m0@, exts@, SectorStatus::NonTrimmed, k as int, done);
            if al {
                lemma_area_on_sectors(m0@, ss as int, ext);
            }
            assert forall|i: int| ext.start <= i < ext.spec_end() implies #[trigger] map@[i]
                == SectorStatus::NonTrimmed by {
                assert(m0@[i] == SectorStatus::NonTrimmed);
            }
            lemma_first_with(map@, SectorStatus::NonTrimmed, 0, ext.start as int);
            lemma_first_without(
                map@,
                SectorStatus::NonTrimmed,
                ext.start as int,
                ext.spec_end(),
            );
        }
        let ghost e1 = *engine;
        let ghost m1 = *map;
        match trim_extent(
            engine,
            map,
            ext,
            ss,
            &mut buf,
            stop,
            on_progress,
            &mut log,
            Ghost(al),
            Ghost(e0),
            Ghost(m0),
        ) {
            Ok(interrupted) => {
                proof {
                    lemma_stepped_trans(al, e0, m0, e1, m1, *engine, *map);
                }
                if interrupted {
                    return Ok(true);
                }
            },
            Err(e) => {
                proof {
                    lemma_broken_off_trans(al, e0, m0, e1, m1, *engine, *map);
                }
                return Err(e);
            },
        }
        proof {
            done = ext.spec_end();
        }
        k = k + 1;
    }
    proof {
        lemma_gap_before(m0@, exts@, SectorStatus::NonTrimmed, n as int, done);
        assert(trimmed_by(e0, m0, *engine, *map, log@));
    }
    Ok(false)
}

/// A retry pass with this log took engine and map from one state to the
/// next.
pub open spec fn retried_by<S: SectorSource, K: ImageSink>(
    e0: ImagingEngine<S, K>,
    m0: RescueMap,
    e1: ImagingEngine<S, K>,
    m1: RescueMap,
    reverse: bool,
    log: Seq<Attempt>,
) -> bool {
    &&& is_retry_log(m0@, e0.src.sector_len() as int, reverse, log)
    &&& m1@ == played(m0@, log, SectorStatus::Bad)
    &&& m1.current_pos == place_after(log, m0.current_pos)
    &&& tells(e0, e1, log)
}

/// The bad bytes that a retry pass with this log has still to read are
/// those below `hi` or, forwards, those from `lo` on.
spec fn is_between(
    m: Seq<SectorStatus>,
    reverse: bool,
    log: Seq<Attempt>,
    lo: int,
    hi: int,
) -> bool {
    if reverse {
        hi <= lowest(log, m.len() as int) <= m.len() && none_within(
            m,
            SectorStatus::Bad,
            hi,
            lowest(log, m.len() as int),
        )
    } else {
        0 <= reached(log) <= lo && none_within(m, SectorStatus::Bad, reached(log), lo)
    }
}

/// Read the bad sectors of one block again, from its end when `reverse` is
/// set. Returns `Ok(true)` when interrupted. The pass began with `pe` and
/// `pm`.
fn retry_extent<S: SectorSource, K: ImageSink, F: FnMut(&RescueMap)>(
    engine: &mut ImagingEngine<S, K>,
    map: &mut RescueMap,
    ext: Extent,
    ss: u64,
    buf: &mut AlignedBuf,
    stop: &AtomicBool,
    reverse: bool,
    on_progress: &mut F,
    log: &mut Ghost<Seq<Attempt>>,
    Ghost(al): Ghost<bool>,
    Ghost(pe): Ghost<ImagingEngine<S, K>>,
    Ghost(pm): Ghost<RescueMap>,
) -> (r: Result<bool, ImagingError>)
    requires
        working(*old(engine), *old(map)),
        takes_any_map(*old(on_progress)),
        old(buf).wf(),
        old(buf)@.len() == ss,
        ss == old(engine).src.sector_len(),
        stepped(al, pe, pm, *old(engine), *old(map)),
        is_area(pm@, ext),
        ext.status == SectorStatus::Bad,
        forall|i: int|
            ext.start <= i < ext.spec_end() ==> #[trigger] old(map)@[i] == SectorStatus::Bad,
        retried_by(pe, pm, *old(engine), *old(map), reverse, old(log)@),
        looked(stop, old(log)@),
        led(pe.src, old(log)@, old(engine).src),
        is_between(pm@, reverse, old(log)@, ext.start as int, ext.spec_end()),
        al ==> aligned(old(map)@, ss as int) && on_sectors(
            ext.start as int,
            ext.len as int,
            ss as int,
            old(map).size as int,
        ),
    ensures
        takes_any_map(*final(on_progress)),
        final(buf).wf(),
        final(buf)@.len() == ss,
        match r {
            Ok(interrupted) => {
                &&& stepped(al, *old(engine), *old(map), *final(engine), *final(map))
                &&& forall|i: int|
                    0 <= i < final(map)@.len() && !(ext.start <= i < ext.spec_end())
                        ==> #[trigger] final(map)@[i] == old(map)@[i]
                &&& forall|i: int|
                    ext.start <= i < ext.spec_end() ==> settled(#[trigger] final(map)@[i])
                &&& !interrupted && al ==> forall|i: int|
                    ext.start <= i < ext.spec_end() ==> retried(
                        old(engine).src,
                        #[trigger] final(map)@[i],
                        final(map)@.len() as int,
                        i,
                    )
            },
            Err(_) => broken_off(al, *old(engine), *old(map), *final(engine), *final(map)),
        },
        retried_by(pe, pm, *final(engine), *final(map), reverse, final(log)@),
        looked(stop, final(log)@),
        r is Ok ==> led(pe.src, final(log)@, final(engine).src),
        r is Err ==> led_and_more(pe.src, final(log)@, final(engine).src),
        r matches Ok(false) ==> if reverse {
            lowest(final(log)@, pm@.len() as int) == ext.start
        } else {
            reached(final(log)@) == ext.spec_end()
        },
        r matches Ok(true) ==> flag_gave(stop, true),
        r matches Err(e) ==> write_failed(final(engine).sink, e),
        dependable(old(engine).sink, old(map).size as int) ==> r is Ok,
{
    let ghost e0 = *engine;
    let ghost m0 = *map;
    let ghost size = map.size as int;
    proof {
        lemma_advances_refl(al, e0.src, e0.sink.image(), m0@);
    }
    let mut lo: u64 = ext.start;
    let mut hi: u64 = ext.end();
    while lo < hi
        invariant
            e0 == *old(engine),
            m0 == *old(map),
            working(e0, m0),
            ss == e0.src.sector_len(),
            size == m0.size,
            ext.start <= lo <= hi <= ext.spec_end() <= size,
            al ==> (lo == hi || lo % ss == 0) && (hi % ss == 0 || hi == size),
            buf.wf(),
            buf@.len() == ss,
            takes_any_map(*on_progress),
            stepped(al, e0, m0, *engine, *map),
            stepped(al, pe, pm, *engine, *map),
            is_area(pm@, ext),
            ext.status == SectorStatus::Bad,
            retried_by(pe, pm, *engine, *map, reverse, log@),
            looked(stop, log@),
            led(pe.src, log@, engine.src),
            is_between(pm@, reverse, log@, lo as int, hi as int),
            reverse ==> lo == ext.start && (hi == ext.spec_end() || hi == lowest(
                log@,
                pm@.len() as int,
            )),
            !reverse ==> hi == ext.spec_end() && (lo == ext.start || lo == reached(log@)),
            forall|i: int| ext.start <= i < ext.spec_end() ==> settled(#[trigger] map@[i]),
            al ==> forall|i: int|
                ext.start <= i < lo ==> retried(e0.src, #[trigger] map@[i], size, i),
            al ==> forall|i: int|
                hi <= i < ext.spec_end() ==> retried(e0.src, #[trigger] map@[i], size, i),
            forall|i: int| lo <= i < hi ==> #[trigger] map@[i] == SectorStatus::Bad,
            forall|i: int|
                0 <= i < map@.len() && !(ext.start <= i < ext.spec_end()) ==> #[trigger] map@[i]
                    == m0@[i],
        decreases hi - lo,
    {
        if stopped(stop) {
            return Ok(true);
        }
        let pos: u64 = if reverse {
            lo + align_down(hi - lo - 1, ss)
        } else {
            lo
        };
        let len: u64 = if ss < hi - pos {
            ss
        } else {
            hi - pos
        };
        let ghost e1 = *engine;
        let ghost m1 = *map;
        proof {
            if al {
                let down = (hi - lo - 1) / (ss as int) * (ss as int);
                vstd::arithmetic::div_mod::lemma_mod_multiples_basic(
                    (hi - lo - 1) / (ss as int),
                    ss as int,
                );
                vstd::arithmetic::div_mod::lemma_add_mod_noop(lo as int, down, ss as int);
                vstd::arithmetic::div_mod::lemma_small_mod(0, ss as nat);
                lemma_next_sector(pos as int, hi as int, ss as int, size);
            }
        }
        match attempt(engine, pos, len, buf, map, SectorStatus::Bad, Ghost(al)) {
            Ok(ok) => {
                proof {
                    let a = Attempt { pos: pos as int, len: len as int, ok };
                    lemma_tells(pe, e1, *engine, log@, a);
                    lemma_push(pm@, log@, a, SectorStatus::Bad);
                    if reverse {
                        assert(is_last_sector(
                            pm@,
                            SectorStatus::Bad,
                            ss as int,
                            lowest(log@, pm@.len() as int),
                            a,
                            ext.start as int,
                        ));
                    } else {
                        assert(is_next_sector(
                            pm@,
                            SectorStatus::Bad,
                            ss as int,
                            reached(log@),
                            a,
                        ));
                    }
                    log@ = log@.push(a);
                }
            },
            Err(e) => {
                proof {
                    lemma_broken_off_trans(al, e0, m0, e1, m1, *engine, *map);
                }
                return Err(e);
            },
        }
        set_position(map, pos);
        proof {
            lemma_stepped_trans(al, e0, m0, e1, m1, *engine, *map);
            lemma_stepped_trans(al, pe, pm, e1, m1, *engine, *map);
            if al {
                assert forall|i: int| pos <= i < pos + len implies retried(
                    e0.src,
                    #[trigger] map@[i],
                    size,
                    i,
                ) by {
                    lemma_one_sector(pos as int, len as int, ss as int, size, i);
                    if sound(e0.src, size, i) {
                        assert(e1.src.readable(pos as int, len as int));
                    }
                }
            }
        }
        if reverse {
            hi = pos;
        } else {
            lo = pos + len;
        }
        on_progress(map);
    }
    Ok(false)
}

/// A byte whose sector was read again: rescued, or of a sector that is not
/// sound.
pub open spec fn retried<S: SectorSource>(src: S, s: SectorStatus, size: int, i: int) -> bool {
    s == SectorStatus::Rescued || (s == SectorStatus::Bad && !sound(src, size, i))
}

/// A retry pass with this log has still to read the blocks from `a` up to
/// `b`.
spec fn is_retry_place(
    m: Seq<SectorStatus>,
    exts: Seq<Extent>,
    reverse: bool,
    log: Seq<Attempt>,
    a: int,
    b: int,
) -> bool {
    if reverse {
        a == 0 && lowest(log, m.len() as int) == if b < exts.len() {
            exts[b].start as int
        } else {
            m.len() as int
        }
    } else {
        b == exts.len() && reached(log) == if a > 0 {
            exts[a - 1].spec_end()
        } else {
            0
        }
    }
}

/// The next block of a retry pass follows on what was read.
proof fn lemma_retry_block(
    m: Seq<SectorStatus>,
    exts: Seq<Extent>,
    reverse: bool,
    log: Seq<Attempt>,
    a: int,
    b: int,
)
    requires
        lists_areas(m, exts, SectorStatus::Bad),
        0 <= a < b <= exts.len(),
        is_retry_place(m, exts, reverse, log, a, b),
    ensures
        ({
            let ext = exts[if reverse {
                b - 1
            } else {
                a
            }];
            is_between(m, reverse, log, ext.start as int, ext.spec_end())
        }),
{
    if reverse {
        lemma_gap_before(m, exts, SectorStatus::Bad, b, exts[b - 1].spec_end());
        assert(is_area(m, exts[b - 1]));
        if b < exts.len() {
            assert(is_area(m, exts[b]));
        }
    } else {
        lemma_gap_before(m, exts, SectorStatus::Bad, a, reached(log));
        if a > 0 {
            assert(is_area(m, exts[a - 1]));
        }
    }
}

/// After its last block a retry pass has read every bad sector.
proof fn lemma_retry_end(
    m: Seq<SectorStatus>,
    exts: Seq<Extent>,
    reverse: bool,
    log: Seq<Attempt>,
    a: int,
)
    requires
        lists_areas(m, exts, SectorStatus::Bad),
        0 <= a <= exts.len(),
        is_retry_place(m, exts, reverse, log, a, a),
    ensures
        retried_all(m, reverse, log),
{
    if reverse {
        lemma_gap_before(m, exts, SectorStatus::Bad, 0, 0);
    } else {
        lemma_gap_before(m, exts, SectorStatus::Bad, a, reached(log));
    }
}

pub fn retry_pass<S: SectorSource, K: ImageSink, F: FnMut(&RescueMap)>(
    engine: &mut ImagingEngine<S, K>,
    map: &mut RescueMap,
    stop: &AtomicBool,
    reverse: bool,
    on_progress: &mut F,
) -> (r: Result<bool, ImagingError>)
    requires
        working(*old(engine), *old(map)),
        takes_any_map(*old(on_progress)),
    ensures
        takes_any_map(*final(on_progress)),
        match r {
            Ok(interrupted) => {
                &&& stepped(
                    starts_aligned(*old(engine), *old(map)),
                    *old(engine),
                    *old(map),
                    *final(engine),
                    *final(map),
                )
                &&& only_from(old(map)@, final(map)@, SectorStatus::Bad)
                &&& forall|i: int|
                    0 <= i < final(map)@.len() && #[trigger] final(map)@[i] != old(map)@[i]
                        ==> final(map)@[i] == SectorStatus::Rescued
                &&& !interrupted && starts_aligned(*old(engine), *old(map)) ==> forall|i: int|
                    0 <= i < final(map)@.len() && #[trigger] final(map)@[i] == SectorStatus::Bad
                        ==> !sound(old(engine).src, final(map)@.len() as int, i)
            },
            Err(_) => broken_off(
                starts_aligned(*old(engine), *old(map)),
                *old(engine),
                *old(map),
                *final(engine),
                *final(map),
            ),
        },
        exists|log: Seq<Attempt>| #[trigger]
            retried_by(*old(engine), *old(map), *final(engine), *final(map), reverse, log)
                && looked(stop, log) && came_to(
                old(engine).src,
                log,
                final(engine).src,
                r is Ok,
            ) && (r matches Ok(false) ==> retried_all(old(map)@, reverse, log)),
        r matches Ok(true) ==> flag_gave(stop, true),
        r matches Err(e) ==> write_failed(final(engine).sink, e),
        dependable(old(engine).sink, old(map).size as int) ==> r is Ok,
{
    let ghost e0 = *engine;
    let ghost m0 = *map;
    let ghost al = starts_aligned(*engine, *map);
    let ss: u64 = engine.src.sector_size() as u64;
    proof {
        vstd::arithmetic::power2::lemma2_to64();
    }
    let mut buf = AlignedBuf::new(ss as usize, BUF_ALIGN);
    let exts: Vec<Extent> = map.ranges(SectorStatus::Bad);
    proof {
        lemma_ranges_list_areas(m0, SectorStatus::Bad);
        lemma_advances_refl(al, e0.src, e0.sink.image(), m0@);
    }
    // The blocks from `a` up to `b` are still to be read.
    let mut a: usize = 0;
    let mut b: usize = exts.len();
    let mut log: Ghost<Seq<Attempt>> = Ghost(Seq::empty());
    while a < b
        invariant
            a <= b <= exts@.len(),
            ss == e0.src.sector_len(),
            e0 == *old(engine),
            m0 == *old(map),
            al == starts_aligned(e0, m0),
            working(e0, m0),
            lists_areas(m0@, exts@, SectorStatus::Bad),
            buf.wf(),
            buf@.len() == ss,
            takes_any_map(*on_progress),
            stepped(al, e0, m0, *engine, *map),
            retried_by(e0, m0, *engine, *map, reverse, log@),
            looked(stop, log@),
            led(e0.src, log@, engine.src),
            is_retry_place(m0@, exts@, reverse, log@, a as int, b as int),
            forall|j: int, i: int|
                a <= j < b && (#[trigger] exts@[j]).start <= i < exts@[j].spec_end()
                    ==> #[trigger] map@[i] == SectorStatus::Bad,
            al ==> forall|j: int, i: int|
                0 <= j < exts@.len() && !(a <= j < b) && (#[trigger] exts@[j]).start <= i
                    < exts@[j].spec_end() ==> retried(
                    e0.src,
                    #[trigger] map@[i],
                    m0.size as int,
                    i,
                ),
            only_from(m0@, map@, SectorStatus::Bad),
            forall|i: int|
                0 <= i < map@.len() && #[trigger] map@[i] != m0@[i] ==> map@[i]
                    == SectorStatus::Rescued,
        decreases b - a,
    {
        let k: usize = if reverse {
            b - 1
        } else {
            a
        };
        let ext: Extent = exts[k];
        proof {
            assert(exts@[k as int] == ext);
            assert(is_area(m0@, ext));
            if al {
                lemma_area_on_sectors(m0@, ss as int, ext);
            }
        }
        let ghost e1 = *engine;
        let ghost m1 = *map;
        proof {
            lemma_retry_block(m0@, exts@, reverse, log@, a as int, b as int);
        }
        match retry_extent(
            engine,
            map,
            ext,
            ss,
            &mut buf,
            stop,
            reverse,
            on_progress,
            &mut log,
            Ghost(al),
            Ghost(e0),
            Ghost(m0),
        ) {
            Ok(interrupted) => {
                proof {
                    lemma_stepped_trans(al, e0, m0, e1, m1, *engine, *map);
                }
                if interrupted {
                    return Ok(true);
                }
            },
            Err(e) => {
                proof {
                    lemma_broken_off_trans(al, e0, m0, e1, m1, *engine, *map);
                }
                return Err(e);
            },
        }
        if reverse {
            b = k;
        } else {
            a = k + 1;
        }
    }
    proof {
        lemma_retry_end(m0@, exts@, reverse, log@, a as int);
        assert(retried_by(e0, m0, *engine, *map, reverse, log@));
        if al {
            assert forall|i: int|
                0 <= i < map@.len() && #[trigger] map@[i] == SectorStatus::Bad implies !sound(
                e0.src,
                m0.size as int,
                i,
            ) by {
                assert(m0@[i] == SectorStatus::Bad);
                let j = choose|j: int|
                    0 <= j < exts@.len() && (#[trigger] exts@[j]).start <= i < exts@[j].spec_end();
                assert(retried(e0.src, map@[i], m0.size as int, i));
            }
        }
    }
    Ok(false)
}

/// The map is aligned to the sectors of the source, and the copy pass skips
/// by whole sectors.
pub open spec fn whole_sectors<S: SectorSource, K: ImageSink>(
    e: ImagingEngine<S, K>,
    m: RescueMap,
) -> bool {
    &&& starts_aligned(e, m)
    &&& e.opts.skip_size as int % e.src.sector_len() as int == 0
    &&& e.opts.max_skip_size as int % e.src.sector_len() as int == 0
}

/// What copying makes of a byte.
pub open spec fn copied_to(s: SectorStatus) -> bool {
    s == SectorStatus::Rescued || s == SectorStatus::NonTrimmed
}

/// The copy pass moved the map from `m0` to `m1`.
pub open spec fn copied(m0: Seq<SectorStatus>, m1: Seq<SectorStatus>) -> bool {
    &&& only_from(m0, m1, SectorStatus::NonTried)
    &&& forall|i: int| 0 <= i < m1.len() && #[trigger] m1[i] != m0[i] ==> copied_to(m1[i])
}

/// The read buffer of the copy pass: one cluster, and what a reverse sweep
/// reads below it to reach a sector boundary.
pub open spec fn copy_buffer_len(opts: super::ImagingOptions, ss: int) -> int {
    cluster_len(opts.cluster_size as int, ss) + ss
}

/// One step of a sweep: marking non-tried bytes leaves fewer of them.
proof fn lemma_copied_step(
    m0: Seq<SectorStatus>,
    m1: Seq<SectorStatus>,
    m2: Seq<SectorStatus>,
    s: int,
    l: int,
    st: SectorStatus,
)
    requires
        m1.len() == m0.len(),
        copied(m0, m1),
        0 <= s,
        0 < l,
        s + l <= m1.len(),
        forall|i: int| s <= i < s + l ==> #[trigger] m1[i] == SectorStatus::NonTried,
        copied_to(st),
        m2 == marked(m1, s, l, st),
    ensures
        copied(m0, m2),
        tally(m2, SectorStatus::NonTried) < tally(m1, SectorStatus::NonTried),
{
    assert forall|i: int| 0 <= i < m1.len() && #[trigger] m2[i]
        == SectorStatus::NonTried implies m1[i] == SectorStatus::NonTried by {}
    assert(m1[s] == SectorStatus::NonTried && m2[s] != SectorStatus::NonTried);
    lemma_tally_drops(m1, m2, SectorStatus::NonTried);
    assert forall|i: int| 0 <= i < m2.len() && m0[i]
        != SectorStatus::NonTried implies #[trigger] m2[i] == m0[i] by {
        assert(m1[i] == m0[i]);
    }
}

/// Sums and differences of multiples of the sector size are multiples.
proof fn lemma_multiples(a: int, b: int, ss: int)
    requires
        ss > 0,
        a % ss == 0,
        b % ss == 0,
    ensures
        (a + b) % ss == 0,
        (a - b) % ss == 0,
        (2 * a) % ss == 0,
{
    vstd::arithmetic::div_mod::lemma_add_mod_noop(a, b, ss);
    vstd::arithmetic::div_mod::lemma_sub_mod_noop(a, b, ss);
    vstd::arithmetic::div_mod::lemma_add_mod_noop(a, a, ss);
    vstd::arithmetic::div_mod::lemma_small_mod(0, ss as nat);
}

/// A copy pass with this log took engine and map from one state to the next.
pub open spec fn copied_by<S: SectorSource, K: ImageSink>(
    e0: ImagingEngine<S, K>,
    m0: RescueMap,
    e1: ImagingEngine<S, K>,
    m1: RescueMap,
    log: Seq<Attempt>,
) -> bool {
    let p = copy_plan(e0.opts, e0.src.sector_len() as int);
    &&& is_copy_log(p, m0@, log)
    &&& m1@ == played(m0@, log, SectorStatus::NonTrimmed)
    &&& m1.current_pos == copy_place(p, log, m0.current_pos)
    &&& tells(e0, e1, log)
}

/// A sweep that stands at `sw` goes on with the log of the copy pass: it was
/// told by the log, or it begins now.
spec fn is_sweep_place(
    p: CopyPlan,
    m0: Seq<SectorStatus>,
    v: Seq<SectorStatus>,
    log: Seq<Attempt>,
    sw: Sweep,
) -> bool {
    let told = copy_sweep(p, m0, log);
    told == sw || (sw == sweep_start(p, v.len() as int) && turned(p, v, told) == sw)
}

/// One sweep from the start to the end of the source. Returns `Ok(true)`
/// when interrupted. The pass began with `pe` and `pm`.
fn copy_sweep_forward<S: SectorSource, K: ImageSink, F: FnMut(&RescueMap)>(
    engine: &mut ImagingEngine<S, K>,
    map: &mut RescueMap,
    stop: &AtomicBool,
    cluster: u64,
    buf: &mut AlignedBuf,
    on_progress: &mut F,
    log: &mut Ghost<Seq<Attempt>>,
    Ghost(al): Ghost<bool>,
    Ghost(pe): Ghost<ImagingEngine<S, K>>,
    Ghost(pm): Ghost<RescueMap>,
) -> (r: Result<bool, ImagingError>)
    requires
        working(*old(engine), *old(map)),
        takes_any_map(*old(on_progress)),
        old(buf).wf(),
        0 < cluster <= old(buf)@.len(),
        al ==> whole_sectors(*old(engine), *old(map)),
        stepped(al, pe, pm, *old(engine), *old(map)),
        copied_by(pe, pm, *old(engine), *old(map), old(log)@),
        looked(stop, old(log)@),
        led(pe.src, old(log)@, old(engine).src),
        ({
            let p = copy_plan(pe.opts, pe.src.sector_len() as int);
            &&& !p.reverse
            &&& p.cluster == cluster
            &&& turned(p, old(map)@, copy_sweep(p, pm@, old(log)@)) == sweep_start(
                p,
                old(map)@.len() as int,
            )
        }),
        cluster as int % old(engine).src.sector_len() as int == 0,
    ensures
        takes_any_map(*final(on_progress)),
        final(buf).wf(),
        final(buf)@.len() == old(buf)@.len(),
        match r {
            Ok(interrupted) => {
                &&& stepped(al, *old(engine), *old(map), *final(engine), *final(map))
                &&& copied(old(map)@, final(map)@)
                &&& !interrupted ==> swept(old(map)@, final(map)@)
            },
            Err(_) => broken_off(al, *old(engine), *old(map), *final(engine), *final(map)),
        },
        copied_by(pe, pm, *final(engine), *final(map), final(log)@),
        looked(stop, final(log)@),
        r is Ok ==> led(pe.src, final(log)@, final(engine).src),
        r is Err ==> led_and_more(pe.src, final(log)@, final(engine).src),
        r matches Ok(false) ==> ({
            let p = copy_plan(pe.opts, pe.src.sector_len() as int);
            nothing_ahead(p, final(map)@, copy_sweep(p, pm@, final(log)@).at)
        }),
        r matches Ok(true) ==> flag_gave(stop, true),
        r matches Err(e) ==> write_failed(final(engine).sink, e),
        dependable(old(engine).sink, old(map).size as int) ==> r is Ok,
{
    let ghost e0 = *engine;
    let ghost m0 = *map;
    let ghost ss = engine.src.sector_len() as int;
    let ghost size = map.size as int;
    let ghost p = copy_plan(pe.opts, pe.src.sector_len() as int);
    proof {
        lemma_advances_refl(al, e0.src, e0.sink.image(), m0@);
        vstd::arithmetic::div_mod::lemma_small_mod(0, ss as nat);
    }
    let first: u64 = if engine.opts.skip_size > cluster {
        engine.opts.skip_size
    } else {
        cluster
    };
    let mut skip: u64 = first;
    let mut pos: u64 = 0;
    let ghost mut sw: Sweep = sweep_start(p, size);
    loop
        invariant
            e0 == *old(engine),
            m0 == *old(map),
            working(e0, m0),
            ss == e0.src.sector_len(),
            size == m0.size,
            al ==> whole_sectors(e0, m0),
            0 < cluster <= buf@.len(),
            cluster as int % ss == 0,
            al ==> first as int % ss == 0 && skip as int % ss == 0 && (pos as int % ss == 0
                || pos >= size),
            buf.wf(),
            buf@.len() == old(buf)@.len(),
            takes_any_map(*on_progress),
            stepped(al, e0, m0, *engine, *map),
            stepped(al, pe, pm, *engine, *map),
            p == copy_plan(pe.opts, pe.src.sector_len() as int),
            !p.reverse,
            p.cluster == cluster,
            p.first_skip == first,
            copied_by(pe, pm, *engine, *map, log@),
            looked(stop, log@),
            led(pe.src, log@, engine.src),
            is_sweep_place(p, pm@, map@, log@, sw),
            skip == sw.skip,
            pos as int == if sw.at < u64::MAX {
                sw.at
            } else {
                u64::MAX as int
            },
            copied(m0@, map@),
            pos == 0 && map@ == m0@ || tally(map@, SectorStatus::NonTried) < tally(
                m0@,
                SectorStatus::NonTried,
            ),
        decreases tally(map@, SectorStatus::NonTried),
    {
        if stopped(stop) {
            return Ok(true);
        }
        match next_forward(map, pos, cluster) {
            None => {
                proof {
                    lemma_tally_zero(m0@, SectorStatus::NonTried);
                }
                return Ok(false);
            },
            Some((start, len)) => {
                let ghost e1 = *engine;
                let ghost m1 = *map;
                proof {
                    if al {
                        lemma_forward_on_sectors(
                            m1@,
                            pos as int,
                            cluster as int,
                            start as int,
                            len as int,
                            ss,
                        );
                    }
                }
                match attempt(engine, start, len, buf, map, SectorStatus::NonTrimmed, Ghost(al)) {
                    Ok(ok) => {
                        proof {
                            let a = Attempt { pos: start as int, len: len as int, ok };
                            assert(m1@[start as int] == SectorStatus::NonTried);
                            assert(turned(p, m1@, copy_sweep(p, pm@, log@)) == sw);
                            lemma_tells(pe, e1, *engine, log@, a);
                            lemma_push(pm@, log@, a, SectorStatus::NonTrimmed);
                            log@ = log@.push(a);
                            sw = sweep_after(p, sw, a);
                            lemma_copied_step(
                                m0@,
                                m1@,
                                map@,
                                start as int,
                                len as int,
                                if ok {
                                    SectorStatus::Rescued
                                } else {
                                    SectorStatus::NonTrimmed
                                },
                            );
                            if al {
                                if (start + len) % ss == 0 {
                                    lemma_multiples(start + len, skip as int, ss);
                                }
                                lemma_multiples(skip as int, skip as int, ss);
                            }
                        }
                        if ok {
                            pos = start + len;
                            skip = first;
                        } else {
                            pos = (start + len).saturating_add(skip);
                            skip = next_skip(skip, engine.opts.max_skip_size);
                        }
                    },
                    Err(e) => {
                        proof {
                            lemma_broken_off_trans(al, e0, m0, e1, m1, *engine, *map);
                        }
                        return Err(e);
                    },
                }
                set_position(map, start + len);
                proof {
                    lemma_stepped_trans(al, e0, m0, e1, m1, *engine, *map);
                    lemma_stepped_trans(al, pe, pm, e1, m1, *engine, *map);
                }
                on_progress(map);
            },
        }
    }
}

/// A sweep over a map with non-tried bytes leaves fewer of them.
pub open spec fn swept(m0: Seq<SectorStatus>, m1: Seq<SectorStatus>) -> bool {
    tally(m0, SectorStatus::NonTried) > 0 ==> tally(m1, SectorStatus::NonTried) < tally(
        m0,
        SectorStatus::NonTried,
    )
}

/// A forward cluster of an aligned map lies on sector boundaries.
proof fn lemma_forward_on_sectors(
    m: Seq<SectorStatus>,
    pos: int,
    cluster: int,
    s: int,
    l: int,
    ss: int,
)
    requires
        ss > 0,
        aligned(m, ss),
        is_forward_cluster(m, pos, cluster, s, l),
        cluster % ss == 0,
        pos % ss == 0 || pos >= m.len(),
    ensures
        on_sectors(s, l, ss, m.len() as int),
{
    if s > pos {
        assert(m[s - 1] != SectorStatus::NonTried);
        lemma_change_on_boundary(m, ss, s);
    }
    if l == cluster {
        lemma_multiples(s, cluster, ss);
    } else if s + l < m.len() {
        assert(m[s + l - 1] == SectorStatus::NonTried);
        lemma_change_on_boundary(m, ss, s + l);
    }
}

/// A reverse cluster of an aligned map lies on sector boundaries.
proof fn lemma_reverse_on_sectors(
    m: Seq<SectorStatus>,
    pos: int,
    cluster: int,
    s: int,
    l: int,
    ss: int,
)
    requires
        ss > 0,
        aligned(m, ss),
        is_reverse_cluster(m, pos, cluster, ss, s, l),
        pos % ss == 0 || pos >= m.len(),
    ensures
        on_sectors(s, l, ss, m.len() as int),
{
    let end = s + l;
    if s > 0 && m[s - 1] != SectorStatus::NonTried {
        lemma_change_on_boundary(m, ss, s);
    } else {
        let v = if end > cluster {
            end - cluster
        } else {
            0
        };
        vstd::arithmetic::div_mod::lemma_mod_multiples_basic(v / ss, ss);
    }
    if end < m.len() && end < pos {
        assert(m[end] != SectorStatus::NonTried);
        assert(m[end - 1] == SectorStatus::NonTried);
        lemma_change_on_boundary(m, ss, end);
    }
}

/// A reverse cluster fits the buffer of the copy pass.
proof fn lemma_reverse_fits(
    m: Seq<SectorStatus>,
    pos: int,
    cluster: int,
    s: int,
    l: int,
    ss: int,
)
    requires
        ss > 0,
        cluster > 0,
        is_reverse_cluster(m, pos, cluster, ss, s, l),
    ensures
        l <= cluster + ss,
{
    let end = s + l;
    let v = if end > cluster {
        end - cluster
    } else {
        0
    };
    vstd::arithmetic::div_mod::lemma_fundamental_div_mod(v, ss);
    vstd::arithmetic::div_mod::lemma_mod_bound(v, ss);
    assert(ss * (v / ss) == (v / ss) * ss) by (nonlinear_arith);
}

/// One sweep from the end to the start of the source. Returns `Ok(true)`
/// when interrupted. The pass began with `pe` and `pm`.
fn copy_sweep_reverse<S: SectorSource, K: ImageSink, F: FnMut(&RescueMap)>(
    engine: &mut ImagingEngine<S, K>,
    map: &mut RescueMap,
    stop: &AtomicBool,
    cluster: u64,
    buf: &mut AlignedBuf,
    on_progress: &mut F,
    log: &mut Ghost<Seq<Attempt>>,
    Ghost(al): Ghost<bool>,
    Ghost(pe): Ghost<ImagingEngine<S, K>>,
    Ghost(pm): Ghost<RescueMap>,
) -> (r: Result<bool, ImagingError>)
    requires
        working(*old(engine), *old(map)),
        takes_any_map(*old(on_progress)),
        old(buf).wf(),
        0 < cluster,
        cluster + old(engine).src.sector_len() <= old(buf)@.len(),
        al ==> whole_sectors(*old(engine), *old(map)),
        stepped(al, pe, pm, *old(engine), *old(map)),
        copied_by(pe, pm, *old(engine), *old(map), old(log)@),
        looked(stop, old(log)@),
        led(pe.src, old(log)@, old(engine).src),
        ({
            let p = copy_plan(pe.opts, pe.src.sector_len() as int);
            &&& p.reverse
            &&& p.cluster == cluster
            &&& turned(p, old(map)@, copy_sweep(p, pm@, old(log)@)) == sweep_start(
                p,
                old(map)@.len() as int,
            )
        }),
        cluster as int % old(engine).src.sector_len() as int == 0,
    ensures
        takes_any_map(*final(on_progress)),
        final(buf).wf(),
        final(buf)@.len() == old(buf)@.len(),
        match r {
            Ok(interrupted) => {
                &&& stepped(al, *old(engine), *old(map), *final(engine), *final(map))
                &&& copied(old(map)@, final(map)@)
                &&& !interrupted ==> swept(old(map)@, final(map)@)
            },
            Err(_) => broken_off(al, *old(engine), *old(map), *final(engine), *final(map)),
        },
        copied_by(pe, pm, *final(engine), *final(map), final(log)@),
        looked(stop, final(log)@),
        r is Ok ==> led(pe.src, final(log)@, final(engine).src),
        r is Err ==> led_and_more(pe.src, final(log)@, final(engine).src),
        r matches Ok(false) ==> ({
            let p = copy_plan(pe.opts, pe.src.sector_len() as int);
            nothing_ahead(p, final(map)@, copy_sweep(p, pm@, final(log)@).at)
        }),
        r matches Ok(true) ==> flag_gave(stop, true),
        r matches Err(e) ==> write_failed(final(engine).sink, e),
        dependable(old(engine).sink, old(map).size as int) ==> r is Ok,
{
    let ghost e0 = *engine;
    let ghost m0 = *map;
    let ss: u64 = engine.src.sector_size() as u64;
    let ghost size = map.size as int;
    let ghost p = copy_plan(pe.opts, pe.src.sector_len() as int);
    proof {
        lemma_advances_refl(al, e0.src, e0.sink.image(), m0@);
        vstd::arithmetic::div_mod::lemma_small_mod(0, ss as nat);
    }
    let first: u64 = if engine.opts.skip_size > cluster {
        engine.opts.skip_size
    } else {
        cluster
    };
    let mut skip: u64 = first;
    let mut pos: u64 = map.size;
    let ghost mut sw: Sweep = sweep_start(p, size);
    loop
        invariant
            e0 == *old(engine),
            m0 == *old(map),
            working(e0, m0),
            ss == e0.src.sector_len(),
            size == m0.size,
            al ==> whole_sectors(e0, m0),
            0 < cluster,
            cluster + ss <= buf@.len(),
            cluster as int % ss as int == 0,
            al ==> first as int % ss as int == 0 && skip as int % ss as int == 0 && (pos as int
                % ss as int == 0 || pos == size),
            buf.wf(),
            buf@.len() == old(buf)@.len(),
            takes_any_map(*on_progress),
            stepped(al, e0, m0, *engine, *map),
            stepped(al, pe, pm, *engine, *map),
            p == copy_plan(pe.opts, pe.src.sector_len() as int),
            p.reverse,
            p.cluster == cluster,
            p.first_skip == first,
            copied_by(pe, pm, *engine, *map, log@),
            looked(stop, log@),
            led(pe.src, log@, engine.src),
            is_sweep_place(p, pm@, map@, log@, sw),
            skip == sw.skip,
            pos == sw.at,
            copied(m0@, map@),
            pos == size && map@ == m0@ || tally(map@, SectorStatus::NonTried) < tally(
                m0@,
                SectorStatus::NonTried,
            ),
        decreases tally(map@, SectorStatus::NonTried),
    {
        if stopped(stop) {
            return Ok(true);
        }
        match next_reverse(map, pos, cluster, ss) {
            None => {
                proof {
                    lemma_tally_zero(m0@, SectorStatus::NonTried);
                }
                return Ok(false);
            },
            Some((start, len)) => {
                let ghost e1 = *engine;
                let ghost m1 = *map;
                proof {
                    lemma_reverse_fits(
                        m1@,
                        pos as int,
                        cluster as int,
                        start as int,
                        len as int,
                        ss as int,
                    );
                    if al {
                        lemma_reverse_on_sectors(
                            m1@,
                            pos as int,
                            cluster as int,
                            start as int,
                            len as int,
                            ss as int,
                        );
                    }
                }
                match attempt(engine, start, len, buf, map, SectorStatus::NonTrimmed, Ghost(al)) {
                    Ok(ok) => {
                        proof {
                            let a = Attempt { pos: start as int, len: len as int, ok };
                            assert(m1@[start as int] == SectorStatus::NonTried);
                            assert(turned(p, m1@, copy_sweep(p, pm@, log@)) == sw);
                            lemma_tells(pe, e1, *engine, log@, a);
                            lemma_push(pm@, log@, a, SectorStatus::NonTrimmed);
                            log@ = log@.push(a);
                            sw = sweep_after(p, sw, a);
                            lemma_copied_step(
                                m0@,
                                m1@,
                                map@,
                                start as int,
                                len as int,
                                if ok {
                                    SectorStatus::Rescued
                                } else {
                                    SectorStatus::NonTrimmed
                                },
                            );
                            if al {
                                lemma_multiples(start as int, skip as int, ss as int);
                                lemma_multiples(skip as int, skip as int, ss as int);
                                vstd::arithmetic::div_mod::lemma_small_mod(0, ss as nat);
                            }
                        }
                        if ok {
                            pos = start;
                            skip = first;
                        } else {
                            pos = start.saturating_sub(skip);
                            skip = next_skip(skip, engine.opts.max_skip_size);
                        }
                    },
                    Err(e) => {
                        proof {
                            lemma_broken_off_trans(al, e0, m0, e1, m1, *engine, *map);
                        }
                        return Err(e);
                    },
                }
                set_position(map, start);
                proof {
                    lemma_stepped_trans(al, e0, m0, e1, m1, *engine, *map);
                    lemma_stepped_trans(al, pe, pm, e1, m1, *engine, *map);
                }
                on_progress(map);
            },
        }
    }
}

/// Sweep until nothing is non-tried. Skipped areas stay non-tried and are
/// revisited by the next sweep; every sweep makes progress, since its first
/// attempt always resolves at least one byte.
pub fn copy_pass<S: SectorSource, K: ImageSink, F: FnMut(&RescueMap)>(
    engine: &mut ImagingEngine<S, K>,
    map: &mut RescueMap,
    stop: &AtomicBool,
    on_progress: &mut F,
) -> (r: Result<bool, ImagingError>)
    requires
        working(*old(engine), *old(map)),
        takes_any_map(*old(on_progress)),
        copy_buffer_len(old(engine).opts, old(engine).src.sector_len() as int) + BUF_ALIGN
            <= usize::MAX,
    ensures
        takes_any_map(*final(on_progress)),
        match r {
            Ok(interrupted) => {
                &&& stepped(
                    whole_sectors(*old(engine), *old(map)),
                    *old(engine),
                    *old(map),
                    *final(engine),
                    *final(map),
                )
                &&& copied(old(map)@, final(map)@)
                &&& !interrupted ==> none_left(final(map)@, SectorStatus::NonTried)
            },
            Err(_) => broken_off(
                whole_sectors(*old(engine), *old(map)),
                *old(engine),
                *old(map),
                *final(engine),
                *final(map),
            ),
        },
        exists|log: Seq<Attempt>| #[trigger]
            copied_by(*old(engine), *old(map), *final(engine), *final(map), log) && looked(
                stop,
                log,
            ) && came_to(old(engine).src, log, final(engine).src, r is Ok),
        r matches Ok(true) ==> flag_gave(stop, true),
        r matches Err(e) ==> write_failed(final(engine).sink, e),
        dependable(old(engine).sink, old(map).size as int) ==> r is Ok,
{
    let ghost e0 = *engine;
    let ghost m0 = *map;
    let ghost al = whole_sectors(*engine, *map);
    let ss: u64 = engine.src.sector_size() as u64;
    let wanted: u64 = if engine.opts.cluster_size > ss {
        engine.opts.cluster_size
    } else {
        ss
    };
    let cluster: u64 = align_down(wanted, ss);
    proof {
        vstd::arithmetic::power2::lemma2_to64();
        lemma_advances_refl(al, e0.src, e0.sink.image(), m0@);
        super::progress::lemma_sector_ge(wanted as int, ss as int, 1);
        assert(wanted as int / ss as int >= 1);
        assert(cluster >= ss) by (nonlinear_arith)
            requires
                wanted as int / ss as int >= 1,
                cluster == (wanted as int / ss as int) * ss as int,
                ss > 0,
        ;
    }
    let mut buf = AlignedBuf::new((cluster + ss) as usize, BUF_ALIGN);
    let mut log: Ghost<Seq<Attempt>> = Ghost(Seq::empty());
    let ghost p = copy_plan(e0.opts, e0.src.sector_len() as int);
    while map.bytes_with(SectorStatus::NonTried) > 0
        invariant
            e0 == *old(engine),
            m0 == *old(map),
            working(e0, m0),
            al == whole_sectors(e0, m0),
            ss == e0.src.sector_len(),
            0 < cluster,
            cluster as int % ss as int == 0,
            buf.wf(),
            buf@.len() == cluster + ss,
            takes_any_map(*on_progress),
            stepped(al, e0, m0, *engine, *map),
            p == copy_plan(e0.opts, e0.src.sector_len() as int),
            p.cluster == cluster,
            copied_by(e0, m0, *engine, *map, log@),
            looked(stop, log@),
            led(e0.src, log@, engine.src),
            turned(p, map@, copy_sweep(p, m0@, log@)) == sweep_start(p, map@.len() as int),
            copied(m0@, map@),
        decreases tally(map@, SectorStatus::NonTried),
    {
        if stopped(stop) {
            return Ok(true);
        }
        let ghost e1 = *engine;
        let ghost m1 = *map;
        let sweep = if engine.opts.reverse {
            copy_sweep_reverse(
                engine,
                map,
                stop,
                cluster,
                &mut buf,
                on_progress,
                &mut log,
                Ghost(al),
                Ghost(e0),
                Ghost(m0),
            )
        } else {
            copy_sweep_forward(
                engine,
                map,
                stop,
                cluster,
                &mut buf,
                on_progress,
                &mut log,
                Ghost(al),
                Ghost(e0),
                Ghost(m0),
            )
        };
        match sweep {
            Ok(interrupted) => {
                proof {
                    lemma_stepped_trans(al, e0, m0, e1, m1, *engine, *map);
                    lemma_copied_trans(m0@, m1@, map@);
                }
                if interrupted {
                    return Ok(true);
                }
            },
            Err(e) => {
                proof {
                    lemma_broken_off_trans(al, e0, m0, e1, m1, *engine, *map);
                }
                return Err(e);
            },
        }
    }
    proof {
        lemma_tally_zero(map@, SectorStatus::NonTried);
        assert(copied_by(e0, m0, *engine, *map, log@));
    }
    Ok(false)
}

proof fn lemma_copied_trans(
    m0: Seq<SectorStatus>,
    m1: Seq<SectorStatus>,
    m2: Seq<SectorStatus>,
)
    requires
        m1.len() == m0.len(),
        m2.len() == m0.len(),
        copied(m0, m1),
        copied(m1, m2),
    ensures
        copied(m0, m2),
{
    assert forall|i: int| 0 <= i < m2.len() && m0[i]
        != SectorStatus::NonTried implies #[trigger] m2[i] == m0[i] by {
        assert(m1[i] == m0[i]);
    }
    assert forall|i: int| 0 <= i < m2.len() && #[trigger] m2[i] != m0[i] implies copied_to(
        m2[i],
    ) by {
        assert(m1[i] == m0[i] || copied_to(m1[i]));
    }
}

} // verus!
