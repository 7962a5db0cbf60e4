//! Multi-pass imaging engine: copy, trim, scrape, retry, driven by the
//! rescue map. The next phase is always derived from the map's contents,
//! so resuming after an interrupt is just "load map, run again".

pub mod healing;
pub mod laws;
pub mod order;
pub mod passes;
pub mod progress;
pub mod sink;
pub mod source;
pub mod stages;
pub mod storage;
pub mod sweep;
pub mod trace;

use crate::map::{
    all_settled, lemma_tally_zero, runs_with, settled, tally, Phase, RescueMap, SectorStatus,
};
use passes::{copy_buffer_len, flag_gave, gave_error, none_left, whole_sectors, write_failed};
use progress::{
    advances, byte_step, lemma_advances_refl, lemma_advances_survives, lemma_advances_trans,
    lemma_survives_trans, map_step, sound, survives,
};
use sink::{extended, ImageSink, SinkOp};
use source::{still_readable, SectorSource};
use std::io;
use std::sync::atomic::AtomicBool;
use trace::{
    counted, is_run, legs_failures, legs_led, legs_led_and_more, legs_map, legs_may_happen,
    legs_phase, legs_place, lemma_failures, may_end_so, may_happen, ran_through, retried_all,
    retries_in, Attempt, Leg,
};
use vstd::prelude::*;

verus! {

/// Why imaging stopped before its end.
#[derive(Debug)]
pub enum ImagingError {
    /// Writing the image failed (e.g. destination full): always fatal.
    Sink(io::Error),
}

impl ImagingError {
    /// The message, up to where that of the system follows.
    pub fn message(&self) -> (s: &'static str)
        ensures
            s@ == "writing image: "@,
    {
        "writing image: "
    }
}

#[derive(Clone, Copy, Debug)]
pub struct ImagingOptions {
    /// Read size for the copy pass, in bytes (multiple of sector size).
    pub cluster_size: u64,
    /// Sweep the copy pass backwards.
    pub reverse: bool,
    /// Extra passes re-reading bad sectors after scraping.
    pub retry_passes: u32,
    /// Bytes to skip after a copy-phase read error (doubles up to a cap).
    pub skip_size: u64,
    pub max_skip_size: u64,
}

impl Default for ImagingOptions {
    fn default() -> (o: Self)
        ensures
            o == (ImagingOptions {
                cluster_size: 65536,
                reverse: false,
                retry_passes: 0,
                skip_size: 65536,
                max_skip_size: 67108864,
            }),
    {
        ImagingOptions {
            cluster_size: 64 * 1024,
            reverse: false,
            retry_passes: 0,
            skip_size: 64 * 1024,
            max_skip_size: 64 * 1024 * 1024,
        }
    }
}

#[derive(Debug, Clone, Copy, PartialEq, Eq, Structural)]
pub enum Outcome {
    Finished,
    Interrupted,
}

#[derive(Debug)]
pub struct Summary {
    pub outcome: Outcome,
    pub rescued: u64,
    pub bad_bytes: u64,
    pub bad_areas: u64,
    pub read_errors: u64,
}

pub struct ImagingEngine<S: SectorSource, K: ImageSink> {
    pub src: S,
    pub sink: K,
    pub opts: ImagingOptions,
    /// Failed reads so far; stays at its largest value once there.
    pub read_errors: u64,
}

/// What a pass needs: a valid map that the sink can hold, and a source with
/// sectors.
pub open spec fn working<S: SectorSource, K: ImageSink>(
    e: ImagingEngine<S, K>,
    m: RescueMap,
) -> bool {
    &&& m.wf()
    &&& m.size <= K::capacity()
    &&& e.src.sector_len() > 0
    &&& e.src.sector_len() + passes::BUF_ALIGN <= usize::MAX
}

/// No operation on an image of `len` bytes fails.
pub open spec fn dependable<K: ImageSink>(sink: K, len: int) -> bool {
    exists|l: int| len <= l && #[trigger] sink.reliable(l)
}

/// What imaging leaves alone, whether or not it ran to its end.
pub open spec fn kept<S: SectorSource, K: ImageSink>(
    e0: ImagingEngine<S, K>,
    m0: RescueMap,
    e1: ImagingEngine<S, K>,
    m1: RescueMap,
) -> bool {
    &&& m1.wf()
    &&& m1.size == m0.size
    &&& m1.current_pos == m0.current_pos || m1.current_pos <= m0.size
    &&& e1.opts == e0.opts
    &&& forall|l: int| e0.sink.reliable(l) ==> #[trigger] e1.sink.reliable(l)
    // nothing becomes bad without a counted read error
    &&& e1.read_errors >= e0.read_errors
    &&& e1.read_errors == e0.read_errors && e0.read_errors < u64::MAX ==> forall|i: int|
        0 <= i < m1@.len() && #[trigger] m1@[i] == SectorStatus::Bad ==> m0@[i]
            == SectorStatus::Bad
}

/// What a pass leaves alone, whether or not it ran to its end.
pub open spec fn undisturbed<S: SectorSource, K: ImageSink>(
    e0: ImagingEngine<S, K>,
    m0: RescueMap,
    e1: ImagingEngine<S, K>,
    m1: RescueMap,
) -> bool {
    &&& kept(e0, m0, e1, m1)
    &&& m1.current_phase == m0.current_phase
    &&& m1.pass == m0.pass
}

/// Work on a source moved map and image from one state to the next; `al`
/// tells that the map is aligned to sectors.
pub open spec fn stepped<S: SectorSource, K: ImageSink>(
    al: bool,
    e0: ImagingEngine<S, K>,
    m0: RescueMap,
    e1: ImagingEngine<S, K>,
    m1: RescueMap,
) -> bool {
    &&& undisturbed(e0, m0, e1, m1)
    &&& advances(al, e0.src, e0.sink.image(), m0@, e1.src, e1.sink.image(), m1@)
}

/// Work on a source was ended by a failed write.
pub open spec fn broken_off<S: SectorSource, K: ImageSink>(
    al: bool,
    e0: ImagingEngine<S, K>,
    m0: RescueMap,
    e1: ImagingEngine<S, K>,
    m1: RescueMap,
) -> bool {
    &&& undisturbed(e0, m0, e1, m1)
    &&& survives(al, e0.src, e0.sink.image(), m0@, e1.src, e1.sink.image(), m1@)
}

/// The progress callback may be called with any map.
pub open spec fn takes_any_map<F: FnMut(&RescueMap)>(f: F) -> bool {
    forall|m: &RescueMap| call_requires(f, (m,))
}

pub(crate) proof fn lemma_stepped_trans<S: SectorSource, K: ImageSink>(
    al: bool,
    e0: ImagingEngine<S, K>,
    m0: RescueMap,
    e1: ImagingEngine<S, K>,
    m1: RescueMap,
    e2: ImagingEngine<S, K>,
    m2: RescueMap,
)
    requires
        stepped(al, e0, m0, e1, m1),
        stepped(al, e1, m1, e2, m2),
    ensures
        stepped(al, e0, m0, e2, m2),
{
    lemma_advances_trans(
        al,
        e0.src,
        e0.sink.image(),
        m0@,
        e1.src,
        e1.sink.image(),
        m1@,
        e2.src,
        e2.sink.image(),
        m2@,
    );
}

pub(crate) proof fn lemma_broken_off_trans<S: SectorSource, K: ImageSink>(
    al: bool,
    e0: ImagingEngine<S, K>,
    m0: RescueMap,
    e1: ImagingEngine<S, K>,
    m1: RescueMap,
    e2: ImagingEngine<S, K>,
    m2: RescueMap,
)
    requires
        stepped(al, e0, m0, e1, m1),
        broken_off(al, e1, m1, e2, m2),
    ensures
        broken_off(al, e0, m0, e2, m2),
        dependable(e0.sink, m0.size as int) ==> dependable(e1.sink, m0.size as int),
{
    if dependable(e0.sink, m0.size as int) {
        let l = choose|l: int| m0.size <= l && #[trigger] e0.sink.reliable(l);
        assert(e1.sink.reliable(l));
    }
    lemma_survives_trans(
        al,
        e0.src,
        e0.sink.image(),
        m0@,
        e1.src,
        e1.sink.image(),
        m1@,
        e2.src,
        e2.sink.image(),
        m2@,
    );
}

/// The phase that a map with the bytes `m` is due for.
pub open spec fn phase_due(m: Seq<SectorStatus>, retries_left: bool) -> Phase {
    if !none_left(m, SectorStatus::NonTried) {
        Phase::Copying
    } else if !none_left(m, SectorStatus::NonTrimmed) {
        Phase::Trimming
    } else if !none_left(m, SectorStatus::NonScraped) {
        Phase::Scraping
    } else if !none_left(m, SectorStatus::Bad) && retries_left {
        Phase::Retrying
    } else {
        Phase::Finished
    }
}

/// `s` tells the outcome and what the map and the engine hold.
pub open spec fn sums_up<S: SectorSource, K: ImageSink>(
    s: Summary,
    e: ImagingEngine<S, K>,
    m: RescueMap,
) -> bool {
    &&& s.rescued == tally(m@, SectorStatus::Rescued)
    &&& s.bad_bytes == tally(m@, SectorStatus::Bad)
    &&& s.bad_areas == runs_with(m.runs(), SectorStatus::Bad).len()
    &&& s.read_errors == e.read_errors
}

/// A pass of the given phase with this log took engine and map from one
/// state to the next.
spec fn passed_by<S: SectorSource, K: ImageSink>(
    e0: ImagingEngine<S, K>,
    m0: RescueMap,
    e1: ImagingEngine<S, K>,
    m1: RescueMap,
    phase: Phase,
    reverse: bool,
    log: Seq<Attempt>,
) -> bool {
    match phase {
        Phase::Copying => passes::copied_by(e0, m0, e1, m1, log),
        Phase::Trimming => passes::trimmed_by(e0, m0, e1, m1, log),
        Phase::Scraping => passes::scraped(e0, m0, e1, m1, log),
        Phase::Retrying => passes::retried_by(e0, m0, e1, m1, reverse, log),
        Phase::Finished => false,
    }
}

/// A run with these passes took engine and map from one state to the next.
pub open spec fn ran_by<S: SectorSource, K: ImageSink>(
    e0: ImagingEngine<S, K>,
    m0: RescueMap,
    e1: ImagingEngine<S, K>,
    m1: RescueMap,
    legs: Seq<Leg>,
) -> bool {
    &&& is_run(e0.opts, e0.src.sector_len() as int, m0@, legs)
    &&& m1@ == legs_map(m0@, legs)
    &&& m1.current_pos == legs_place(
        e0.opts,
        e0.src.sector_len() as int,
        legs,
        m0.current_pos,
    )
    &&& m1.pass as int == if m0.pass + retries_in(legs) <= u32::MAX {
        m0.pass + retries_in(legs)
    } else {
        u32::MAX as int
    }
    &&& e1.read_errors == counted(e0.read_errors, legs_failures(legs))
    &&& legs_may_happen(e0.src, legs)
}

/// The passes of a run left nothing to do.
pub open spec fn is_over(opts: ImagingOptions, m0: Seq<SectorStatus>, legs: Seq<Leg>) -> bool {
    &&& ran_through(m0, legs)
    &&& phase_due(legs_map(m0, legs), retries_in(legs) < opts.retry_passes) == Phase::Finished
}

proof fn lemma_legs_failures(legs: Seq<Leg>)
    ensures
        legs_failures(legs) >= 0,
        retries_in(legs) >= 0,
    decreases legs.len(),
{
    if legs.len() > 0 {
        lemma_legs_failures(legs.drop_last());
        lemma_failures(legs.last().log);
    }
}

/// One more pass at the end of a run.
proof fn lemma_one_more_leg<S: SectorSource, K: ImageSink>(
    e0: ImagingEngine<S, K>,
    m0: RescueMap,
    e1: ImagingEngine<S, K>,
    m1: RescueMap,
    legs: Seq<Leg>,
    m2: RescueMap,
    e3: ImagingEngine<S, K>,
    m3: RescueMap,
    phase: Phase,
    log: Seq<Attempt>,
)
    requires
        ran_by(e0, m0, e1, m1, legs),
        ran_through(m0@, legs),
        e1.opts == e0.opts,
        e1.src.sector_len() == e0.src.sector_len(),
        e1.src.data() == e0.src.data(),
        still_readable(e0.src, e1.src),
        phase == phase_due(m1@, retries_in(legs) < e0.opts.retry_passes),
        m2@ == m1@,
        m2.current_pos == m1.current_pos,
        phase != Phase::Retrying ==> m2.pass == m1.pass,
        phase == Phase::Retrying ==> m2.pass as int == if m1.pass < u32::MAX {
            m1.pass + 1
        } else {
            u32::MAX as int
        },
        m3.pass == m2.pass,
        passed_by(
            e1,
            m2,
            e3,
            m3,
            phase,
            (retries_in(legs) + 1) % 2 == 0,
            log,
        ),
    ensures
        ran_by(e0, m0, e3, m3, legs.push(Leg { phase, log })),
        legs.push(Leg { phase, log }).drop_last() == legs,
        legs.push(Leg { phase, log }).last() == (Leg { phase, log }),
{
    let leg = Leg { phase, log };
    let more = legs.push(leg);
    assert(more.drop_last() =~= legs);
    lemma_legs_failures(legs);
    lemma_failures(log);
    assert forall|k: int| 0 <= k < more.len() implies may_happen(
        e0.src,
        (#[trigger] more[k]).log,
    ) by {
        if k < legs.len() {
            assert(may_happen(e0.src, legs[k].log));
        } else {
            assert forall|j: int| 0 <= j < log.len() implies may_end_so(
                e0.src,
                #[trigger] log[j],
            ) by {
                assert(may_end_so(e1.src, log[j]));
            }
        }
    }
}

/// The error is the one that the last operation of the sink gave: sizing the
/// image, a write or a flush.
pub open spec fn sink_failed<K: ImageSink>(size: int, sink: K, e: ImagingError) -> bool {
    ||| exists|before: K| #[trigger] gave_error(before, SinkOp::SetLen(size), sink, e)
    ||| exists|before: K| #[trigger] gave_error(before, SinkOp::Flush, sink, e)
    ||| write_failed(sink, e)
}

/// Bad bytes lie in sectors that are not sound.
pub open spec fn bad_for_cause<S: SectorSource>(src: S, m: Seq<SectorStatus>) -> bool {
    forall|i: int|
        0 <= i < m.len() && #[trigger] m[i] == SectorStatus::Bad ==> !sound(src, m.len() as int, i)
}

/// Work leaves the map's bad bytes bad for cause.
proof fn lemma_bad_for_cause<S: SectorSource>(
    src0: S,
    src1: S,
    m1: Seq<SectorStatus>,
    src2: S,
    m2: Seq<SectorStatus>,
)
    requires
        src1.sector_len() == src0.sector_len(),
        still_readable(src0, src1),
        bad_for_cause(src0, m1),
        map_step(true, src1, m1, src2, m2),
    ensures
        bad_for_cause(src0, m2),
{
    assert forall|i: int| 0 <= i < m2.len() && #[trigger] m2[i] == SectorStatus::Bad implies !sound(
        src0,
        m2.len() as int,
        i,
    ) by {
        assert(byte_step(true, src1, m1, m2, i));
        if m1[i] != SectorStatus::Bad {
            assert(!sound(src1, m1.len() as int, i));
        }
    }
}

/// A pass that says more of an aligned map than is asked for.
proof fn lemma_stepped_weaken<S: SectorSource, K: ImageSink>(
    strong: bool,
    al: bool,
    e0: ImagingEngine<S, K>,
    m0: RescueMap,
    e1: ImagingEngine<S, K>,
    m1: RescueMap,
)
    requires
        al ==> strong,
    ensures
        stepped(strong, e0, m0, e1, m1) ==> stepped(al, e0, m0, e1, m1),
        broken_off(strong, e0, m0, e1, m1) ==> broken_off(al, e0, m0, e1, m1),
{
    if map_step(strong, e0.src, m0@, e1.src, m1@) {
        assert forall|i: int| 0 <= i < m1@.len() implies #[trigger] byte_step(
            al,
            e0.src,
            m0@,
            m1@,
            i,
        ) by {
            assert(byte_step(strong, e0.src, m0@, m1@, i));
        }
    }
}

impl<S: SectorSource, K: ImageSink> ImagingEngine<S, K> {
    pub fn new(src: S, sink: K, opts: ImagingOptions) -> (e: Self)
        ensures
            e.src == src,
            e.sink == sink,
            e.opts == opts,
            e.read_errors == 0,
    {
        ImagingEngine { src, sink, opts, read_errors: 0 }
    }

    pub(crate) fn note_read_error(&mut self)
        ensures
            final(self).src == old(self).src,
            final(self).sink == old(self).sink,
            final(self).opts == old(self).opts,
            final(self).read_errors as int == if old(self).read_errors < u64::MAX {
                old(self).read_errors + 1
            } else {
                u64::MAX as int
            },
    {
        self.read_errors = self.read_errors.saturating_add(1);
    }

    fn next_phase(&self, map: &RescueMap, retries_done: u32) -> (p: Phase)
        requires
            map.wf(),
        ensures
            p == phase_due(map@, retries_done < self.opts.retry_passes),
    {
        proof {
            lemma_tally_zero(map@, SectorStatus::NonTried);
            lemma_tally_zero(map@, SectorStatus::NonTrimmed);
            lemma_tally_zero(map@, SectorStatus::NonScraped);
            lemma_tally_zero(map@, SectorStatus::Bad);
        }
        if map.bytes_with(SectorStatus::NonTried) > 0 {
            Phase::Copying
        } else if map.bytes_with(SectorStatus::NonTrimmed) > 0 {
            Phase::Trimming
        } else if map.bytes_with(SectorStatus::NonScraped) > 0 {
            Phase::Scraping
        } else if map.bytes_with(SectorStatus::Bad) > 0 && retries_done < self.opts.retry_passes {
            Phase::Retrying
        } else {
            Phase::Finished
        }
    }

    fn summary(&self, map: &RescueMap, outcome: Outcome) -> (s: Summary)
        requires
            map.wf(),
        ensures
            s.outcome == outcome,
            sums_up(s, *self, *map),
    {
        Summary {
            outcome,
            rescued: map.bytes_with(SectorStatus::Rescued),
            bad_bytes: map.bytes_with(SectorStatus::Bad),
            bad_areas: map.count_with(SectorStatus::Bad),
            read_errors: self.read_errors,
        }
    }

    /// Run all remaining phases. Checks `stop` between reads; when it is
    /// set the engine returns with `Outcome::Interrupted` and a map that
    /// can be saved and resumed later.
    ///
    /// `on_progress` is called after each unit of work with the current map
    /// state, so the caller can update progress display and autosave the
    /// map. Read errors on the source are part of normal operation and are
    /// reflected in the map, not surfaced as errors.
    #[verifier::rlimit(60)]
    pub fn run<F: FnMut(&RescueMap)>(
        &mut self,
        map: &mut RescueMap,
        stop: &AtomicBool,
        on_progress: &mut F,
    ) -> (r: Result<Summary, ImagingError>)
        requires
            old(map).wf(),
            old(map).size <= K::capacity(),
            old(self).src.sector_len() > 0,
            copy_buffer_len(old(self).opts, old(self).src.sector_len() as int) + passes::BUF_ALIGN
                <= usize::MAX,
            takes_any_map(*old(on_progress)),
        ensures
            takes_any_map(*final(on_progress)),
            kept(*old(self), *old(map), *final(self), *final(map)),
            match r {
                Ok(s) => {
                    &&& advances(
                        whole_sectors(*old(self), *old(map)),
                        old(self).src,
                        extended(old(self).sink.image(), old(map).size as int),
                        old(map)@,
                        final(self).src,
                        final(self).sink.image(),
                        final(map)@,
                    )
                    &&& sums_up(s, *final(self), *final(map))
                    &&& old(map).pass <= final(map).pass <= old(map).pass
                        + old(self).opts.retry_passes
                    &&& s.outcome == Outcome::Finished ==> {
                        &&& all_settled(final(map)@)
                        &&& final(map).current_phase == Phase::Finished
                        // retries stop early only when nothing is bad
                        &&& none_left(final(map)@, SectorStatus::Bad) || final(map).pass as int
                            == if old(map).pass + old(self).opts.retry_passes <= u32::MAX {
                            old(map).pass + old(self).opts.retry_passes
                        } else {
                            u32::MAX as int
                        }
                        &&& whole_sectors(*old(self), *old(map)) && old(self).opts.retry_passes > 0
                            ==> bad_for_cause(old(self).src, final(map)@)
                    }
                },
                Err(_) => {
                    ||| *final(map) == *old(map) && final(self).sink.image()
                        == old(self).sink.image()
                    ||| survives(
                        whole_sectors(*old(self), *old(map)),
                        old(self).src,
                        extended(old(self).sink.image(), old(map).size as int),
                        old(map)@,
                        final(self).src,
                        final(self).sink.image(),
                        final(map)@,
                    )
                },
            },
            // an interrupted run saw the flag set, a finished one saw it unset
            r matches Ok(s) ==> flag_gave(stop, s.outcome == Outcome::Interrupted),
            // the error is the one that an operation of the sink gave
            r matches Err(e) ==> sink_failed(old(map).size as int, final(self).sink, e),
            // where the flag is set from the start, nothing is read
            !flag_gave(stop, false) ==> {
                &&& *final(map) == *old(map)
                &&& final(self).src == old(self).src
                &&& final(self).read_errors == old(self).read_errors
            },
            exists|legs: Seq<Leg>| #[trigger]
                ran_by(*old(self), *old(map), *final(self), *final(map), legs) && (legs.len() > 0
                    ==> flag_gave(stop, false)) && (legs_led(
                    old(self).src,
                    legs,
                    final(self).src,
                ) || (r is Err && legs_led_and_more(old(self).src, legs, final(self).src))) && (
                r matches Ok(s) && (legs.len() > 0 || s.outcome == Outcome::Finished)
                    ==> final(self).sink.flushed() == final(self).sink.image())
                    && match r {
                    Ok(s) => if s.outcome == Outcome::Finished {
                        is_over(old(self).opts, old(map)@, legs)
                    } else {
                        final(map).current_phase == legs_phase(legs, old(map).current_phase)
                    },
                    Err(_) => {
                        ||| final(map).current_phase == legs_phase(legs, old(map).current_phase)
                        ||| final(map).current_phase == Phase::Finished && is_over(
                            old(self).opts,
                            old(map)@,
                            legs,
                        )
                    },
                },
            dependable(old(self).sink, old(map).size as int) ==> r is Ok,
    {
        let ghost e0 = *self;
        let ghost m0 = *map;
        let ghost al = whole_sectors(e0, m0);
        let ghost size = map.size as int;
        match self.sink.set_len(map.size) {
            Ok(()) => {},
            Err(e) => {
                assert(ran_by(e0, m0, *self, *map, Seq::<Leg>::empty()));
                assert(gave_error(e0.sink, SinkOp::SetLen(size), self.sink, ImagingError::Sink(e)));
                return Err(ImagingError::Sink(e));
            },
        }
        let ghost img = self.sink.image();
        let ghost mut legs: Seq<Leg> = Seq::empty();
        proof {
            lemma_room(e0);
            lemma_advances_refl(al, e0.src, img, m0@);
        }
        let mut retries_done: u32 = 0;
        loop
            invariant
                e0 == *old(self),
                m0 == *old(map),
                m0.wf(),
                al == whole_sectors(e0, m0),
                size == m0.size,
                size <= K::capacity(),
                img == extended(e0.sink.image(), size),
                e0.src.sector_len() > 0,
                copy_buffer_len(e0.opts, e0.src.sector_len() as int) + passes::BUF_ALIGN
                    <= usize::MAX,
                e0.src.sector_len() + passes::BUF_ALIGN <= usize::MAX,
                takes_any_map(*on_progress),
                kept(e0, m0, *self, *map),
                advances(al, e0.src, img, m0@, self.src, self.sink.image(), map@),
                retries_done <= e0.opts.retry_passes,
                retries_done == retries_in(legs),
                ran_by(e0, m0, *self, *map, legs),
                ran_through(m0@, legs),
                legs_led(e0.src, legs, self.src),
                legs.len() > 0 ==> flag_gave(stop, false),
                legs.len() > 0 ==> self.sink.flushed() == self.sink.image(),
                flag_gave(stop, false) || (*map == m0 && self.src == e0.src && self.read_errors
                    == e0.read_errors),
                map.current_phase == legs_phase(legs, m0.current_phase),
                al && retries_done > 0 ==> bad_for_cause(e0.src, map@),
            decreases
                    tally(map@, SectorStatus::NonTried),
                    tally(map@, SectorStatus::NonTrimmed),
                    tally(map@, SectorStatus::NonScraped),
                    e0.opts.retry_passes - retries_done,
        {
            if passes::stopped(stop) {
                return Ok(self.summary(map, Outcome::Interrupted));
            }
            let phase: Phase = self.next_phase(map, retries_done);
            let ghost m1 = *map;
            map.current_phase = phase;
            assert(map@ =~= m1@);
            let ghost e1 = *self;
            let mut reverse: bool = false;
            if phase == Phase::Retrying {
                retries_done = retries_done + 1;
                map.pass = map.pass.saturating_add(1);
                assert(map@ =~= m1@);
                reverse = retries_done.is_multiple_of(2);
            }
            let ghost m2 = *map;
            let done = match phase {
                Phase::Copying => passes::copy_pass(self, map, stop, on_progress),
                Phase::Trimming => passes::trim_pass(self, map, stop, on_progress),
                Phase::Scraping => passes::scrape_pass(self, map, stop, on_progress),
                Phase::Retrying => passes::retry_pass(self, map, stop, reverse, on_progress),
                Phase::Finished => {
                    proof {
                        assert(is_over(e0.opts, m0@, legs));
                        lemma_still_dependable(e0, m0, e1, m1);
                        lemma_advances_survives(
                            al,
                            e0.src,
                            img,
                            m0@,
                            e1.src,
                            e1.sink.image(),
                            m1@,
                        );
                    }
                    let ghost unflushed = self.sink;
                    let flushed = self.sink.flush();
                    assert(flushed matches Err(cause) ==> gave_error(
                        unflushed,
                        SinkOp::Flush,
                        self.sink,
                        ImagingError::Sink(cause),
                    ));
                    assert(ran_by(e0, m0, *self, *map, legs));
                    return match flushed {
                        Ok(()) => Ok(self.summary(map, Outcome::Finished)),
                        Err(e) => Err(ImagingError::Sink(e)),
                    };
                },
            };
            proof {
                lemma_still_dependable(e0, m0, e1, m1);
                lemma_stepped_weaken(passes::starts_aligned(e1, m2), al, e1, m2, *self, *map);
                lemma_stepped_weaken(whole_sectors(e1, m2), al, e1, m2, *self, *map);
                let log = match phase {
                    Phase::Copying => choose|log: Seq<Attempt>| #[trigger]
                        passes::copied_by(e1, m2, *self, *map, log) && passes::came_to(
                            e1.src,
                            log,
                            self.src,
                            done is Ok,
                        ),
                    Phase::Trimming => choose|log: Seq<Attempt>| #[trigger]
                        passes::trimmed_by(e1, m2, *self, *map, log) && passes::came_to(
                            e1.src,
                            log,
                            self.src,
                            done is Ok,
                        ),
                    Phase::Scraping => choose|log: Seq<Attempt>| #[trigger]
                        passes::scraped(e1, m2, *self, *map, log) && passes::came_to(
                            e1.src,
                            log,
                            self.src,
                            done is Ok,
                        ),
                    _ => choose|log: Seq<Attempt>| #[trigger]
                        passes::retried_by(e1, m2, *self, *map, reverse, log) && passes::came_to(
                            e1.src,
                            log,
                            self.src,
                            done is Ok,
                        ) && (done matches Ok(false) ==> retried_all(m2@, reverse, log)),
                };
                assert(passes::came_to(e1.src, log, self.src, done is Ok));
                assert(legs.push(Leg { phase, log }).drop_last() =~= legs);
                lemma_one_more_leg(e0, m0, e1, m1, legs, m2, *self, *map, phase, log);
                legs = legs.push(Leg { phase, log });
            }
            match done {
                Ok(interrupted) => {
                    proof {
                        lemma_phase_done(al, e0, img, m0, e1, m2, *self, *map);
                    }
                    let ghost unflushed = self.sink;
                    let flushed = self.sink.flush();
                    assert(flushed matches Err(cause) ==> gave_error(
                        unflushed,
                        SinkOp::Flush,
                        self.sink,
                        ImagingError::Sink(cause),
                    ));
                    assert(ran_by(e0, m0, *self, *map, legs));
                    match flushed {
                        Ok(()) => {},
                        Err(e) => {
                            return Err(ImagingError::Sink(e));
                        },
                    }
                    if interrupted {
                        return Ok(self.summary(map, Outcome::Interrupted));
                    }
                    proof {
                        lemma_remaining_work(m1@, map@, phase);
                    }
                },
                Err(e) => {
                    proof {
                        lemma_phase_broken(al, e0, img, m0, e1, m2, *self, *map);
                    }
                    return Err(e);
                },
            }
        }
    }
}

/// A sink that never fails stays one.
proof fn lemma_still_dependable<S: SectorSource, K: ImageSink>(
    e0: ImagingEngine<S, K>,
    m0: RescueMap,
    e1: ImagingEngine<S, K>,
    m1: RescueMap,
)
    requires
        kept(e0, m0, e1, m1),
    ensures
        dependable(e0.sink, m0.size as int) ==> dependable(e1.sink, m1.size as int),
{
    if dependable(e0.sink, m0.size as int) {
        let l = choose|l: int| m0.size <= l && #[trigger] e0.sink.reliable(l);
        assert(e1.sink.reliable(l));
    }
}

/// A pass after other work.
proof fn lemma_phase_done<S: SectorSource, K: ImageSink>(
    al: bool,
    e0: ImagingEngine<S, K>,
    img: Seq<u8>,
    m0: RescueMap,
    e1: ImagingEngine<S, K>,
    m1: RescueMap,
    e2: ImagingEngine<S, K>,
    m2: RescueMap,
)
    requires
        kept(e0, m0, e1, m1),
        advances(al, e0.src, img, m0@, e1.src, e1.sink.image(), m1@),
        stepped(al, e1, m1, e2, m2),
    ensures
        kept(e0, m0, e2, m2),
        advances(al, e0.src, img, m0@, e2.src, e2.sink.image(), m2@),
        survives(al, e0.src, img, m0@, e2.src, e2.sink.image(), m2@),
        dependable(e0.sink, m0.size as int) ==> dependable(e2.sink, m2.size as int),
        al && bad_for_cause(e0.src, m1@) ==> bad_for_cause(e0.src, m2@),
        bad_for_cause(e1.src, m2@) ==> bad_for_cause(e0.src, m2@),
{
    lemma_advances_trans(
        al,
        e0.src,
        img,
        m0@,
        e1.src,
        e1.sink.image(),
        m1@,
        e2.src,
        e2.sink.image(),
        m2@,
    );
    lemma_advances_survives(al, e0.src, img, m0@, e2.src, e2.sink.image(), m2@);
    lemma_still_dependable(e0, m0, e2, m2);
    if al && bad_for_cause(e0.src, m1@) {
        lemma_bad_for_cause(e0.src, e1.src, m1@, e2.src, m2@);
    }
    if bad_for_cause(e1.src, m2@) {
        assert forall|i: int|
            0 <= i < m2@.len() && #[trigger] m2@[i] == SectorStatus::Bad implies !sound(
            e0.src,
            m2@.len() as int,
            i,
        ) by {
            assert(!sound(e1.src, m2@.len() as int, i));
        }
    }
}

/// A pass that a failed write ended, after other work.
proof fn lemma_phase_broken<S: SectorSource, K: ImageSink>(
    al: bool,
    e0: ImagingEngine<S, K>,
    img: Seq<u8>,
    m0: RescueMap,
    e1: ImagingEngine<S, K>,
    m1: RescueMap,
    e2: ImagingEngine<S, K>,
    m2: RescueMap,
)
    requires
        kept(e0, m0, e1, m1),
        advances(al, e0.src, img, m0@, e1.src, e1.sink.image(), m1@),
        broken_off(al, e1, m1, e2, m2),
    ensures
        kept(e0, m0, e2, m2),
        survives(al, e0.src, img, m0@, e2.src, e2.sink.image(), m2@),
{
    lemma_survives_trans(
        al,
        e0.src,
        img,
        m0@,
        e1.src,
        e1.sink.image(),
        m1@,
        e2.src,
        e2.sink.image(),
        m2@,
    );
}

/// What a completed pass of the due phase makes of the map.
pub open spec fn phase_effect(m1: Seq<SectorStatus>, m2: Seq<SectorStatus>, phase: Phase) -> bool {
    &&& m1.len() == m2.len()
    &&& match phase {
        Phase::Copying => none_left(m2, SectorStatus::NonTried),
        Phase::Trimming => none_left(m2, SectorStatus::NonTrimmed) && passes::only_from(
            m1,
            m2,
            SectorStatus::NonTrimmed,
        ) && forall|i: int|
            0 <= i < m2.len() && #[trigger] m2[i] != m1[i] ==> passes::trimmed_to(m2[i]),
        Phase::Scraping => none_left(m2, SectorStatus::NonScraped) && forall|i: int|
            0 <= i < m2.len() && #[trigger] m2[i] != m1[i] ==> settled(m2[i]),
        Phase::Retrying => forall|i: int|
            0 <= i < m2.len() && #[trigger] m2[i] != m1[i] ==> m2[i] == SectorStatus::Rescued,
        Phase::Finished => true,
    }
}

/// Each completed pass leaves less to do.
proof fn lemma_remaining_work(m1: Seq<SectorStatus>, m2: Seq<SectorStatus>, phase: Phase)
    requires
        exists|left: bool| phase == phase_due(m1, left),
        phase_effect(m1, m2, phase),
    ensures
        phase == Phase::Copying ==> tally(m2, SectorStatus::NonTried) < tally(
            m1,
            SectorStatus::NonTried,
        ),
        phase == Phase::Trimming ==> tally(m2, SectorStatus::NonTried) == tally(
            m1,
            SectorStatus::NonTried,
        ) && tally(m2, SectorStatus::NonTrimmed) < tally(m1, SectorStatus::NonTrimmed),
        phase == Phase::Scraping ==> tally(m2, SectorStatus::NonTried) == tally(
            m1,
            SectorStatus::NonTried,
        ) && tally(m2, SectorStatus::NonTrimmed) == tally(m1, SectorStatus::NonTrimmed) && tally(
            m2,
            SectorStatus::NonScraped,
        ) < tally(m1, SectorStatus::NonScraped),
        phase == Phase::Retrying ==> tally(m2, SectorStatus::NonTried) == tally(
            m1,
            SectorStatus::NonTried,
        ) && tally(m2, SectorStatus::NonTrimmed) == tally(m1, SectorStatus::NonTrimmed) && tally(
            m2,
            SectorStatus::NonScraped,
        ) == tally(m1, SectorStatus::NonScraped),
{
    lemma_tally_zero(m1, SectorStatus::NonTried);
    lemma_tally_zero(m1, SectorStatus::NonTrimmed);
    lemma_tally_zero(m1, SectorStatus::NonScraped);
    lemma_tally_zero(m2, SectorStatus::NonTried);
    lemma_tally_zero(m2, SectorStatus::NonTrimmed);
    lemma_tally_zero(m2, SectorStatus::NonScraped);
}

/// The buffers of the sector passes fit where that of the copy pass fits.
proof fn lemma_room<S: SectorSource, K: ImageSink>(e: ImagingEngine<S, K>)
    requires
        e.src.sector_len() > 0,
        copy_buffer_len(e.opts, e.src.sector_len() as int) + passes::BUF_ALIGN <= usize::MAX,
    ensures
        e.src.sector_len() + passes::BUF_ALIGN <= usize::MAX,
{
    let ss = e.src.sector_len() as int;
    let v = if e.opts.cluster_size > ss {
        e.opts.cluster_size as int
    } else {
        ss
    };
    assert((v / ss) * ss >= 0) by (nonlinear_arith)
        requires
            v >= 0,
            ss > 0,
    ;
}

} // verus!
