//! What imaging promises as a whole, whatever the order of reads and
//! however often it was interrupted: laws over the relation that
//! [`ImagingEngine::run`](super::ImagingEngine::run) establishes.

use super::progress::{
    advances, aligned, byte_step, dead, lemma_advances_trans, lemma_fresh_end, lemma_image_fits,
    lemma_sector_ge, newly, rescued_image, sector_size_at, sector_start, sound,
};
use super::sink::extended;
use super::source::{faulted, still_readable, BadRegion, FaultySource, MemSource, SectorSource};
use super::trace::{
    copy_plan, first_with, first_without, is_backward_log, is_copy_log, is_last_sector, is_run,
    is_sector_log, is_trim_log, legs_map, lowest, played, taken_up, trim_state, Attempt, CopyPlan,
    Leg, Trim,
};
use super::{phase_due, ImagingOptions};
use crate::map::format::{ignorable, is_map, lemma_round_trip, parsed, serialized};
use crate::map::laws::{lemma_extents_are_canonical, lemma_tallies_add_up};
use crate::map::{all_settled, lemma_tally_zero, tally, Phase, RescueMap, SectorStatus};
use crate::text::split_on;
use vstd::prelude::*;

verus! {

/// The sector that byte `i` lies in holds a byte that no read can cover.
pub open spec fn lost<S: SectorSource>(src: S, size: int, i: int) -> bool {
    exists|j: int|
        0 <= j < size && j / (src.sector_len() as int) == i / (src.sector_len() as int)
            && #[trigger] dead(src, j)
}

/// Every sector is either always or never readable.
pub open spec fn steady<S: SectorSource>(src: S, size: int) -> bool {
    forall|i: int| 0 <= i < size ==> #[trigger] sound(src, size, i) || lost(src, size, i)
}

/// Nothing was tried yet.
pub open spec fn untouched(m: Seq<SectorStatus>) -> bool {
    forall|i: int| 0 <= i < m.len() ==> #[trigger] m[i] == SectorStatus::NonTried
}

/// A new map is aligned to sectors of any size.
pub proof fn lemma_untouched_is_aligned(m: Seq<SectorStatus>, ss: int)
    requires
        untouched(m),
    ensures
        aligned(m, ss),
{
}

/// What was rescued stays rescued, and its bytes in the image stay as they
/// are.
pub proof fn lemma_rescued_stays<S: SectorSource>(
    al: bool,
    src0: S,
    img0: Seq<u8>,
    m0: Seq<SectorStatus>,
    src1: S,
    img1: Seq<u8>,
    m1: Seq<SectorStatus>,
    i: int,
)
    requires
        advances(al, src0, img0, m0, src1, img1, m1),
        0 <= i < m0.len(),
        m0[i] == SectorStatus::Rescued,
    ensures
        m1[i] == SectorStatus::Rescued,
        i < img0.len() ==> i < img1.len() && img1[i] == img0[i],
{
    assert(byte_step(al, src0, m0, m1, i));
    assert(!newly(m0, m1, i));
}

/// Every byte that became rescued is in the image as the source holds it.
pub proof fn lemma_rescued_is_right<S: SectorSource>(
    al: bool,
    src0: S,
    img0: Seq<u8>,
    m0: Seq<SectorStatus>,
    src1: S,
    img1: Seq<u8>,
    m1: Seq<SectorStatus>,
    i: int,
)
    requires
        advances(al, src0, img0, m0, src1, img1, m1),
        0 <= i < m0.len(),
        m1[i] == SectorStatus::Rescued,
        m0[i] != SectorStatus::Rescued,
    ensures
        i < src0.data().len(),
        i < img1.len(),
        img1[i] == src0.data()[i],
{
    assert(byte_step(al, src0, m0, m1, i));
    lemma_fresh_end(m0, m1, m1.len() as int);
    assert(newly(m0, m1, i));
}

/// Bytes that were not rescued, and bytes past the map, are never written:
/// in a fresh image they are holes.
pub proof fn lemma_holes_stay<S: SectorSource>(
    al: bool,
    src0: S,
    img0: Seq<u8>,
    m0: Seq<SectorStatus>,
    src1: S,
    img1: Seq<u8>,
    m1: Seq<SectorStatus>,
    i: int,
)
    requires
        advances(al, src0, img0, m0, src1, img1, m1),
        i >= m1.len() || m1[i] != SectorStatus::Rescued,
    ensures
        img1.len() >= img0.len(),
        m1.len() <= img0.len() ==> img1.len() == img0.len(),
        0 <= i < img0.len() ==> img1[i] == img0[i],
        img0.len() <= i < img1.len() ==> img1[i] == 0,
{
    lemma_fresh_end(m0, m1, m1.len() as int);
    assert(!newly(m0, m1, i));
}

/// Imaging that was interrupted and taken up again with the saved map is
/// imaging in one go: the image already has its size, so extending it again
/// changes nothing, and the two runs together are one.
pub proof fn lemma_resume<S: SectorSource>(
    al: bool,
    src0: S,
    img0: Seq<u8>,
    m0: Seq<SectorStatus>,
    src1: S,
    img1: Seq<u8>,
    m1: Seq<SectorStatus>,
    src2: S,
    img2: Seq<u8>,
    m2: Seq<SectorStatus>,
)
    requires
        advances(al, src0, extended(img0, m0.len() as int), m0, src1, img1, m1),
        advances(al, src1, extended(img1, m1.len() as int), m1, src2, img2, m2),
    ensures
        extended(img1, m1.len() as int) == img1,
        advances(al, src0, extended(img0, m0.len() as int), m0, src2, img2, m2),
{
    let img = extended(img0, m0.len() as int);
    assert(img1 =~= rescued_image(img, m0, m1, src0.data()));
    assert(extended(img1, m1.len() as int) =~= img1);
    lemma_advances_trans(al, src0, img, m0, src1, img1, m1, src2, img2, m2);
}

/// Finished imaging narrows errors down to exact sectors: in a map that
/// started with nothing bad, a sector that is always readable is rescued,
/// byte for byte, and one that cannot be read is bad and not written.
pub proof fn lemma_sectors_resolved<S: SectorSource>(
    src0: S,
    img0: Seq<u8>,
    m0: Seq<SectorStatus>,
    src1: S,
    img1: Seq<u8>,
    m1: Seq<SectorStatus>,
    i: int,
)
    requires
        src0.sector_len() > 0,
        advances(true, src0, img0, m0, src1, img1, m1),
        all_settled(m1),
        0 <= i < m0.len() <= img0.len(),
        m0[i] == SectorStatus::NonTried,
        forall|j: int| 0 <= j < m0.len() ==> #[trigger] m0[j] != SectorStatus::Rescued,
    ensures
        sound(src0, m0.len() as int, i) ==> m1[i] == SectorStatus::Rescued && img1[i]
            == src0.data()[i],
        lost(src0, m0.len() as int, i) ==> m1[i] == SectorStatus::Bad && img1[i] == img0[i],
{
    assert(byte_step(true, src0, m0, m1, i));
    if lost(src0, m0.len() as int, i) {
        let j = choose|j: int|
            0 <= j < m0.len() && j / (src0.sector_len() as int) == i / (src0.sector_len() as int)
                && #[trigger] dead(src0, j);
        assert(byte_step(true, src0, m0, m1, j));
        assert(m0[j] != SectorStatus::Rescued);
        assert(m1[j] == m1[i]);
    }
}

/// On a steady source two finished imagings of an untouched map give the
/// same map and the same image, whatever the direction of the sweeps, the
/// sizes of reads and skips, and the interruptions in between.
pub proof fn lemma_same_result<S: SectorSource>(
    src0: S,
    img0: Seq<u8>,
    m0: Seq<SectorStatus>,
    src_a: S,
    img_a: Seq<u8>,
    m_a: Seq<SectorStatus>,
    src_b: S,
    img_b: Seq<u8>,
    m_b: Seq<SectorStatus>,
)
    requires
        src0.sector_len() > 0,
        steady(src0, m0.len() as int),
        untouched(m0),
        m0.len() <= img0.len(),
        advances(true, src0, img0, m0, src_a, img_a, m_a),
        advances(true, src0, img0, m0, src_b, img_b, m_b),
        all_settled(m_a),
        all_settled(m_b),
    ensures
        m_a == m_b,
        img_a == img_b,
{
    assert forall|i: int| 0 <= i < m0.len() implies #[trigger] m_a[i] == m_b[i] by {
        assert(m0[i] == SectorStatus::NonTried);
        assert(sound(src0, m0.len() as int, i) || lost(src0, m0.len() as int, i));
        lemma_sectors_resolved(src0, img0, m0, src_a, img_a, m_a, i);
        lemma_sectors_resolved(src0, img0, m0, src_b, img_b, m_b, i);
    }
    assert(m_a =~= m_b);
}

/// No byte that cannot be read is ever called rescued, finished or not.
pub proof fn lemma_dead_is_never_rescued<S: SectorSource>(
    al: bool,
    src0: S,
    img0: Seq<u8>,
    m0: Seq<SectorStatus>,
    src1: S,
    img1: Seq<u8>,
    m1: Seq<SectorStatus>,
    i: int,
)
    requires
        advances(al, src0, img0, m0, src1, img1, m1),
        0 <= i < m0.len(),
        dead(src0, i),
        m0[i] != SectorStatus::Rescued,
    ensures
        m1[i] != SectorStatus::Rescued,
{
    assert(byte_step(al, src0, m0, m1, i));
}

/// A memory source with injected faults that never heal is steady, and the
/// sectors that a fault touches are the lost ones.
pub proof fn lemma_permanent_faults_are_steady(src: FaultySource<MemSource>, size: int, i: int)
    requires
        src.sector_len() > 0,
        0 <= i < size <= src.data().len(),
        forall|k: int|
            0 <= k < src.bad@.len() ==> (#[trigger] src.bad@[k]).remaining_failures is None
                && src.bad@[k].range.start < src.bad@[k].range.end,
    ensures
        sound(src, size, i) <==> !faulted(
            src.bad@,
            sector_start(i, src.sector_len() as int),
            sector_size_at(i, src.sector_len() as int, size),
        ),
        lost(src, size, i) <==> faulted(
            src.bad@,
            sector_start(i, src.sector_len() as int),
            sector_size_at(i, src.sector_len() as int, size),
        ),
{
    let ss = src.sector_len() as int;
    let o = sector_start(i, ss);
    let l = sector_size_at(i, ss, size);
    let q = i / ss;
    lemma_sector_ge(i, ss, q);
    assert((q + 1) * ss == q * ss + ss) by (nonlinear_arith);
    if faulted(src.bad@, o, l) {
        let k = choose|k: int|
            0 <= k < src.bad@.len() && #[trigger] src.bad@[k].touches(o, l) && src.bad@[k].active();
        let b = src.bad@[k];
        let j = if b.range.start > o {
            b.range.start as int
        } else {
            o
        };
        assert(q >= 0) by {
            lemma_sector_ge(i, ss, 0);
        }
        assert(o >= 0) by (nonlinear_arith)
            requires
                q >= 0,
                ss > 0,
                o == q * ss,
        ;
        lemma_sector_ge(j, ss, q);
        lemma_sector_ge(j, ss, q + 1);
        assert(j / ss == q);
        assert forall|o2: int, l2: int| o2 <= j < o2 + l2 implies #[trigger] src.unreadable(
            o2,
            l2,
        ) by {
            assert(src.bad@[k].touches(o2, l2));
        }
        assert(dead(src, j));
    } else if lost(src, size, i) {
        let j = choose|j: int| 0 <= j < size && j / ss == i / ss && #[trigger] dead(src, j);
        lemma_sector_ge(j, ss, q);
        lemma_sector_ge(j, ss, q + 1);
        assert(src.unreadable(o, l));
        assert(!src.inner.unreadable(o, l));
        let k = choose|k: int|
            0 <= k < src.bad@.len() && #[trigger] src.bad@[k].touches(o, l)
                && src.bad@[k].remaining_failures is None;
        assert(src.bad@[k].active());
        assert(false);
    }
}

/// Imaging of a memory source with faults that never heal, from a new map
/// into an empty image, marks exactly the sectors that a fault touches as
/// bad and leaves holes there; all else is rescued, byte for byte.
pub proof fn lemma_permanent_faults_resolved(
    src: FaultySource<MemSource>,
    m0: Seq<SectorStatus>,
    src1: FaultySource<MemSource>,
    img1: Seq<u8>,
    m1: Seq<SectorStatus>,
    i: int,
)
    requires
        src.sector_len() > 0,
        0 <= i < m0.len() == src.data().len(),
        forall|k: int|
            0 <= k < src.bad@.len() ==> (#[trigger] src.bad@[k]).remaining_failures is None
                && src.bad@[k].range.start < src.bad@[k].range.end,
        untouched(m0),
        advances(true, src, extended(Seq::empty(), m0.len() as int), m0, src1, img1, m1),
        all_settled(m1),
    ensures
        img1.len() == m0.len(),
        tally(m1, SectorStatus::Rescued) + tally(m1, SectorStatus::Bad) == m0.len(),
        if faulted(
            src.bad@,
            sector_start(i, src.sector_len() as int),
            sector_size_at(i, src.sector_len() as int, m0.len() as int),
        ) {
            m1[i] == SectorStatus::Bad && img1[i] == 0
        } else {
            m1[i] == SectorStatus::Rescued && img1[i] == src.data()[i]
        },
{
    let img0 = extended(Seq::<u8>::empty(), m0.len() as int);
    lemma_permanent_faults_are_steady(src, m0.len() as int, i);
    assert(m0[i] == SectorStatus::NonTried);
    lemma_image_fits(img0, m0, m1, src.data());
    lemma_sectors_resolved(src, img0, m0, src1, img1, m1, i);
    lemma_tallies_add_up(m1);
    lemma_tally_zero(m1, SectorStatus::NonTried);
    lemma_tally_zero(m1, SectorStatus::NonTrimmed);
    lemma_tally_zero(m1, SectorStatus::NonScraped);
}

/// Imaging that was interrupted, saved, loaded and resumed ends as imaging
/// in one go: on a steady source the map, its extents and the image are
/// those of a single run. The resumed run may use a new source that
/// promises what the first one did.
pub proof fn lemma_resumed_is_uninterrupted<S: SectorSource>(
    src: S,
    img0: Seq<u8>,
    m0: Seq<SectorStatus>,
    src_a: S,
    img_a: Seq<u8>,
    m_a: RescueMap,
    command_line: Seq<char>,
    loaded: RescueMap,
    src_b: S,
    src_c: S,
    img_c: Seq<u8>,
    m_c: RescueMap,
    src_x: S,
    img_x: Seq<u8>,
    m_x: RescueMap,
)
    requires
        src.sector_len() > 0,
        steady(src, m0.len() as int),
        untouched(m0),
        // the first run, however far it came
        m_a.wf(),
        advances(true, src, extended(img0, m0.len() as int), m0, src_a, img_a, m_a@),
        // its map, saved and loaded
        forall|k: int|
            1 <= k < split_on(command_line, '\n').len() ==> ignorable(
                #[trigger] split_on(command_line, '\n')[k],
            ),
        parsed(serialized(m_a, command_line)) matches Ok(told) && is_map(loaded, told),
        // the second run
        src_b.data() == src.data(),
        src_b.sector_len() == src.sector_len(),
        still_readable(src, src_b),
        m_c.wf(),
        advances(true, src_b, extended(img_a, m0.len() as int), loaded@, src_c, img_c, m_c@),
        all_settled(m_c@),
        // a single run
        m_x.wf(),
        advances(true, src, extended(img0, m0.len() as int), m0, src_x, img_x, m_x@),
        all_settled(m_x@),
    ensures
        m_c@ == m_x@,
        m_c.runs() == m_x.runs(),
        img_c == img_x,
{
    lemma_round_trip(m_a, command_line);
    assert(loaded@ == m_a@);
    let img = extended(img0, m0.len() as int);
    assert(advances(true, src, img, m0, src_b, img_a, m_a@));
    lemma_resume(true, src, img0, m0, src_b, img_a, m_a@, src_c, img_c, m_c@);
    lemma_same_result(src, img, m0, src_c, img_c, m_c@, src_x, img_x, m_x@);
    lemma_extents_are_canonical(m_c, m_x);
}

/// A fault that heals: once a region has failed as often as it was told to,
/// it makes no further read fail.
pub proof fn lemma_fault_heals(b: BadRegion, offset: int, len: int, n: nat)
    requires
        b.remaining_failures matches Some(k) && k <= n,
        b.touches(offset, len),
    ensures
        !reread(b, offset, len, n).active(),
    decreases n,
{
    if n > 0 {
        lemma_fault_heals(b.after_read(offset, len), offset, len, (n - 1) as nat);
    }
}

/// The region after `n` reads of `[offset, offset + len)`.
pub open spec fn reread(b: BadRegion, offset: int, len: int, n: nat) -> BadRegion
    decreases n,
{
    if n == 0 {
        b
    } else {
        reread(b.after_read(offset, len), offset, len, (n - 1) as nat)
    }
}

/// The reads of two logs ended alike.
pub open spec fn same_outcomes(a: Seq<Attempt>, b: Seq<Attempt>) -> bool {
    &&& a.len() == b.len()
    &&& forall|j: int| 0 <= j < a.len() ==> (#[trigger] a[j]).ok == b[j].ok
}

proof fn lemma_same_before(a: Seq<Attempt>, b: Seq<Attempt>)
    requires
        same_outcomes(a, b),
        a.len() > 0,
    ensures
        same_outcomes(a.drop_last(), b.drop_last()),
        a.last().ok == b.last().ok,
        a.drop_last() == b.drop_last() && a.last() == b.last() ==> a == b,
{
    assert forall|j: int| 0 <= j < a.drop_last().len() implies (#[trigger] a.drop_last()[j]).ok
        == b.drop_last()[j].ok by {
        assert(a[j].ok == b[j].ok);
    }
    assert(a[a.len() - 1].ok == b[a.len() - 1].ok);
    if a.drop_last() == b.drop_last() && a.last() == b.last() {
        assert(a =~= a.drop_last().push(a.last()));
        assert(b =~= b.drop_last().push(b.last()));
    }
}

/// The copy pass has no choice: the map and the outcomes of its reads fix
/// what it reads.
pub proof fn lemma_outcomes_fix_copying(
    p: CopyPlan,
    m: Seq<SectorStatus>,
    a: Seq<Attempt>,
    b: Seq<Attempt>,
)
    requires
        is_copy_log(p, m, a),
        is_copy_log(p, m, b),
        same_outcomes(a, b),
    ensures
        a == b,
    decreases a.len(),
{
    if a.len() > 0 {
        lemma_same_before(a, b);
        lemma_outcomes_fix_copying(p, m, a.drop_last(), b.drop_last());
        let x = a.last();
        let y = b.last();
        let v = played(m, a.drop_last(), SectorStatus::NonTrimmed);
        if p.reverse {
            assert(v[x.end() - 1] == SectorStatus::NonTried);
            assert(v[y.end() - 1] == SectorStatus::NonTried);
            assert(x.end() == y.end());
            if x.pos < y.pos {
                assert(v[y.pos - 1] == SectorStatus::NonTried);
            } else if y.pos < x.pos {
                assert(v[x.pos - 1] == SectorStatus::NonTried);
            }
        } else {
            assert(v[x.pos] == SectorStatus::NonTried);
            assert(v[y.pos] == SectorStatus::NonTried);
            assert(x.pos == y.pos);
            if x.end() < y.end() {
                assert(v[x.end()] == SectorStatus::NonTried);
            } else if y.end() < x.end() {
                assert(v[y.end()] == SectorStatus::NonTried);
            }
        }
    } else {
        assert(a =~= b);
    }
}

/// The trim pass has no choice: the map and the outcomes of its reads fix
/// what it reads.
pub proof fn lemma_outcomes_fix_trimming(
    m: Seq<SectorStatus>,
    ss: int,
    a: Seq<Attempt>,
    b: Seq<Attempt>,
)
    requires
        is_trim_log(m, ss, a),
        is_trim_log(m, ss, b),
        same_outcomes(a, b),
    ensures
        a == b,
    decreases a.len(),
{
    if a.len() > 0 {
        lemma_same_before(a, b);
        lemma_outcomes_fix_trimming(m, ss, a.drop_last(), b.drop_last());
    } else {
        assert(a =~= b);
    }
}

/// The scrape pass and forward retry passes have no choice: the map fixes
/// what they read.
pub proof fn lemma_map_fixes_sectors(
    m: Seq<SectorStatus>,
    st: SectorStatus,
    ss: int,
    a: Seq<Attempt>,
    b: Seq<Attempt>,
)
    requires
        is_sector_log(m, st, ss, a),
        is_sector_log(m, st, ss, b),
        same_outcomes(a, b),
    ensures
        a == b,
    decreases a.len(),
{
    if a.len() > 0 {
        lemma_same_before(a, b);
        lemma_map_fixes_sectors(m, st, ss, a.drop_last(), b.drop_last());
        let x = a.last();
        let y = b.last();
        assert(m[x.pos] == st);
        assert(m[y.pos] == st);
        assert(x.pos == y.pos);
        if x.end() < y.end() {
            assert(m[x.end()] == st);
        } else if y.end() < x.end() {
            assert(m[y.end()] == st);
        }
    } else {
        assert(a =~= b);
    }
}

/// Backward retry passes have no choice: the map fixes what they read.
pub proof fn lemma_map_fixes_backward_sectors(
    m: Seq<SectorStatus>,
    st: SectorStatus,
    ss: int,
    a: Seq<Attempt>,
    b: Seq<Attempt>,
)
    requires
        ss > 0,
        is_backward_log(m, st, ss, a),
        is_backward_log(m, st, ss, b),
        same_outcomes(a, b),
    ensures
        a == b,
    decreases a.len(),
{
    if a.len() > 0 {
        lemma_same_before(a, b);
        lemma_map_fixes_backward_sectors(m, st, ss, a.drop_last(), b.drop_last());
        let x = a.last();
        let y = b.last();
        let to = lowest(a.drop_last(), m.len() as int);
        let i = choose|i: int| #[trigger] is_last_sector(m, st, ss, to, x, i);
        let j = choose|j: int| #[trigger] is_last_sector(m, st, ss, to, y, j);
        assert(m[x.end() - 1] == st);
        assert(m[y.end() - 1] == st);
        assert(x.end() == y.end());
        if i < j {
            assert(m[j - 1] == st);
        } else if j < i {
            assert(m[i - 1] == st);
        }
        assert(i == j);
        let u = (x.pos - i) / ss;
        let w = (y.pos - i) / ss;
        vstd::arithmetic::div_mod::lemma_fundamental_div_mod(x.pos - i, ss);
        vstd::arithmetic::div_mod::lemma_fundamental_div_mod(y.pos - i, ss);
        assert(u < w ==> ss * u + ss <= ss * w) by (nonlinear_arith)
            requires
                ss > 0,
        ;
        assert(w < u ==> ss * w + ss <= ss * u) by (nonlinear_arith)
            requires
                ss > 0,
        ;
        assert(u == w);
    } else {
        assert(a =~= b);
    }
}

/// No read of the log covers byte `i`.
pub open spec fn avoids(log: Seq<Attempt>, i: int) -> bool {
    forall|j: int| 0 <= j < log.len() ==> !((#[trigger] log[j]).pos <= i < log[j].end())
}

proof fn lemma_avoids_last(log: Seq<Attempt>, i: int)
    requires
        log.len() > 0,
        avoids(log.drop_last(), i),
        !(log.last().pos <= i < log.last().end()),
    ensures
        avoids(log, i),
{
    assert forall|j: int| 0 <= j < log.len() implies !((#[trigger] log[j]).pos <= i
        < log[j].end()) by {
        if j < log.len() - 1 {
            assert(log.drop_last()[j] == log[j]);
        }
    }
}

/// The copy pass reads non-tried bytes only, and changes no others.
pub proof fn lemma_copying_avoids(p: CopyPlan, m: Seq<SectorStatus>, log: Seq<Attempt>, i: int)
    requires
        is_copy_log(p, m, log),
        0 <= i < m.len(),
        m[i] != SectorStatus::NonTried,
    ensures
        avoids(log, i),
        played(m, log, SectorStatus::NonTrimmed).len() == m.len(),
        played(m, log, SectorStatus::NonTrimmed)[i] == m[i],
    decreases log.len(),
{
    if log.len() > 0 {
        lemma_copying_avoids(p, m, log.drop_last(), i);
        let v = played(m, log.drop_last(), SectorStatus::NonTrimmed);
        assert(v[i] != SectorStatus::NonTried);
        lemma_avoids_last(log, i);
    }
}

/// The scrape pass and retry passes read bytes with the status `st` only,
/// and change no others.
pub proof fn lemma_sectors_avoid(
    m: Seq<SectorStatus>,
    st: SectorStatus,
    ss: int,
    log: Seq<Attempt>,
    i: int,
)
    requires
        is_sector_log(m, st, ss, log) || is_backward_log(m, st, ss, log),
        0 <= i < m.len(),
        m[i] != st,
    ensures
        avoids(log, i),
        played(m, log, SectorStatus::Bad).len() == m.len(),
        played(m, log, SectorStatus::Bad)[i] == m[i],
    decreases log.len(),
{
    if log.len() > 0 {
        lemma_sectors_avoid(m, st, ss, log.drop_last(), i);
        if is_sector_log(m, st, ss, log) {
            assert(!(log.last().pos <= i < log.last().end()));
        } else {
            let start = choose|start: int| #[trigger]
                is_last_sector(
                    m,
                    st,
                    ss,
                    lowest(log.drop_last(), m.len() as int),
                    log.last(),
                    start,
                );
            assert(!(start <= i < log.last().end()));
        }
        lemma_avoids_last(log, i);
    }
}

/// What is left of the block that is trimmed lies in the map and is still
/// to be trimmed.
spec fn is_trimmable(t: Trim, size: int) -> bool {
    &&& t.m.len() == size
    &&& t.lo < t.hi ==> 0 <= t.lo && t.hi <= size
    &&& forall|x: int| t.lo <= x < t.hi ==> #[trigger] t.m[x] == SectorStatus::NonTrimmed
}

proof fn lemma_first_places(m: Seq<SectorStatus>, st: SectorStatus, i: int)
    requires
        0 <= i <= m.len(),
    ensures
        i <= first_with(m, st, i) <= m.len(),
        i <= first_without(m, st, i) <= m.len(),
        forall|x: int| i <= x < first_without(m, st, i) ==> #[trigger] m[x] == st,
    decreases m.len() - i,
{
    if i < m.len() {
        lemma_first_places(m, st, i + 1);
    }
}

/// The trim pass reads non-trimmed bytes only, and changes no others.
pub proof fn lemma_trimming_avoids(m: Seq<SectorStatus>, ss: int, log: Seq<Attempt>, i: int)
    requires
        ss > 0,
        is_trim_log(m, ss, log),
        0 <= i < m.len(),
        m[i] != SectorStatus::NonTrimmed,
    ensures
        avoids(log, i),
        trim_state(m, log).m.len() == m.len(),
        trim_state(m, log).m[i] == m[i],
{
    lemma_trim_states(m, ss, log, i);
}

proof fn lemma_trim_states(m: Seq<SectorStatus>, ss: int, log: Seq<Attempt>, i: int)
    requires
        ss > 0,
        is_trim_log(m, ss, log),
        0 <= i < m.len(),
        m[i] != SectorStatus::NonTrimmed,
    ensures
        avoids(log, i),
        is_trimmable(trim_state(m, log), m.len() as int),
        trim_state(m, log).m[i] == m[i],
    decreases log.len(),
{
    if log.len() > 0 {
        lemma_trim_states(m, ss, log.drop_last(), i);
        let s = trim_state(m, log.drop_last());
        let lo = first_with(s.m, SectorStatus::NonTrimmed, 0);
        lemma_first_places(s.m, SectorStatus::NonTrimmed, 0);
        lemma_first_places(s.m, SectorStatus::NonTrimmed, lo);
        let t = taken_up(s);
        assert(is_trimmable(t, m.len() as int));
        let a = log.last();
        lemma_sector_ge(t.hi - 1, ss, (t.hi - 1) / ss);
        assert(t.lo <= a.pos < a.end() <= t.hi);
        lemma_avoids_last(log, i);
    }
}

/// What is rescued is never read again, and stays rescued, in whatever
/// passes a run makes.
pub proof fn lemma_rescued_is_not_read_again(
    opts: ImagingOptions,
    ss: int,
    m: Seq<SectorStatus>,
    legs: Seq<Leg>,
    i: int,
)
    requires
        ss > 0,
        is_run(opts, ss, m, legs),
        0 <= i < m.len(),
        m[i] == SectorStatus::Rescued,
    ensures
        forall|k: int| 0 <= k < legs.len() ==> avoids((#[trigger] legs[k]).log, i),
        legs_map(m, legs).len() == m.len(),
        legs_map(m, legs)[i] == SectorStatus::Rescued,
    decreases legs.len(),
{
    if legs.len() > 0 {
        let before = legs.drop_last();
        lemma_rescued_is_not_read_again(opts, ss, m, before, i);
        let v = legs_map(m, before);
        let leg = legs.last();
        match leg.phase {
            Phase::Copying => lemma_copying_avoids(copy_plan(opts, ss), v, leg.log, i),
            Phase::Trimming => lemma_trimming_avoids(v, ss, leg.log, i),
            Phase::Scraping => lemma_sectors_avoid(v, SectorStatus::NonScraped, ss, leg.log, i),
            _ => lemma_sectors_avoid(v, SectorStatus::Bad, ss, leg.log, i),
        }
        assert forall|k: int| 0 <= k < legs.len() implies avoids((#[trigger] legs[k]).log, i) by {
            if k < legs.len() - 1 {
                assert(before[k] == legs[k]);
            }
        }
    }
}

/// A run over a map that is due for nothing makes no pass.
pub proof fn lemma_finished_stays_finished(
    opts: ImagingOptions,
    ss: int,
    m: Seq<SectorStatus>,
    legs: Seq<Leg>,
)
    requires
        is_run(opts, ss, m, legs),
        phase_due(m, 0 < opts.retry_passes) == Phase::Finished,
    ensures
        legs.len() == 0,
    decreases legs.len(),
{
    if legs.len() > 0 {
        lemma_finished_stays_finished(opts, ss, m, legs.drop_last());
    }
}

} // verus!
