//! What every operation of the imaging engine keeps: the relation between
//! source, image and map before and after some work.

use super::sink::{extended, overwritten};
use super::source::{still_readable, SectorSource};
use crate::map::{marked, settled, SectorStatus};
use vstd::prelude::*;

verus! {

/// No read that covers byte `i` can succeed.
pub open spec fn dead<S: SectorSource>(src: S, i: int) -> bool {
    forall|o: int, l: int| o <= i < o + l ==> #[trigger] src.unreadable(o, l)
}

/// Start of the sector that byte `i` lies in.
pub open spec fn sector_start(i: int, ss: int) -> int {
    (i / ss) * ss
}

/// Length of the sector that byte `i` lies in; the last one of `size`
/// bytes may be short.
pub open spec fn sector_size_at(i: int, ss: int, size: int) -> int {
    if sector_start(i, ss) + ss <= size {
        ss
    } else {
        size - sector_start(i, ss)
    }
}

/// Reading the sector that byte `i` lies in always succeeds.
pub open spec fn sound<S: SectorSource>(src: S, size: int, i: int) -> bool {
    src.readable(
        sector_start(i, src.sector_len() as int),
        sector_size_at(i, src.sector_len() as int, size),
    )
}

/// Bytes of the same sector have the same status.
pub open spec fn aligned(m: Seq<SectorStatus>, ss: int) -> bool {
    forall|i: int, j: int|
        0 <= i < m.len() && 0 <= j < m.len() && #[trigger] (i / ss) == #[trigger] (j / ss)
            ==> m[i] == m[j]
}

/// `[p, p + l)` starts on a sector boundary and ends on one or at `size`.
pub open spec fn on_sectors(p: int, l: int, ss: int, size: int) -> bool {
    p % ss == 0 && ((p + l) % ss == 0 || p + l == size)
}

/// Byte `i` became rescued between `m0` and `m1`.
pub open spec fn newly(m0: Seq<SectorStatus>, m1: Seq<SectorStatus>, i: int) -> bool {
    0 <= i < m1.len() && m1[i] == SectorStatus::Rescued && m0[i] != SectorStatus::Rescued
}

/// Where the last of the first `n` bytes that became rescued ends.
pub open spec fn fresh_end(m0: Seq<SectorStatus>, m1: Seq<SectorStatus>, n: int) -> int
    decreases n,
{
    if n <= 0 {
        0
    } else if newly(m0, m1, n - 1) {
        n
    } else {
        fresh_end(m0, m1, n - 1)
    }
}

/// `img` with the bytes that became rescued between `m0` and `m1`; it is
/// made longer as far as they reach, and a gap reads as zeros.
pub open spec fn rescued_image(
    img: Seq<u8>,
    m0: Seq<SectorStatus>,
    m1: Seq<SectorStatus>,
    data: Seq<u8>,
) -> Seq<u8> {
    let long = extended(img, fresh_end(m0, m1, m1.len() as int));
    Seq::new(
        long.len(),
        |i: int|
            if newly(m0, m1, i) {
                data[i]
            } else {
                long[i]
            },
    )
}

pub proof fn lemma_fresh_end(m0: Seq<SectorStatus>, m1: Seq<SectorStatus>, n: int)
    requires
        0 <= n <= m1.len(),
    ensures
        0 <= fresh_end(m0, m1, n) <= n,
        forall|i: int| i < n && #[trigger] newly(m0, m1, i) ==> i < fresh_end(m0, m1, n),
        fresh_end(m0, m1, n) > 0 ==> newly(m0, m1, fresh_end(m0, m1, n) - 1),
    decreases n,
{
    if n > 0 && !newly(m0, m1, n - 1) {
        lemma_fresh_end(m0, m1, n - 1);
    }
}

/// An image that is as long as the map keeps its length.
pub proof fn lemma_image_fits(
    img: Seq<u8>,
    m0: Seq<SectorStatus>,
    m1: Seq<SectorStatus>,
    data: Seq<u8>,
)
    requires
        m1.len() <= img.len(),
    ensures
        rescued_image(img, m0, m1, data).len() == img.len(),
        forall|i: int|
            0 <= i < img.len() ==> #[trigger] rescued_image(img, m0, m1, data)[i] == if newly(
                m0,
                m1,
                i,
            ) {
                data[i]
            } else {
                img[i]
            },
{
    lemma_fresh_end(m0, m1, m1.len() as int);
}

/// Without newly rescued bytes the image stays as it is.
pub proof fn lemma_image_stays(
    img: Seq<u8>,
    m0: Seq<SectorStatus>,
    m1: Seq<SectorStatus>,
    data: Seq<u8>,
)
    requires
        forall|i: int| !#[trigger] newly(m0, m1, i),
    ensures
        rescued_image(img, m0, m1, data) == img,
{
    lemma_fresh_end(m0, m1, m1.len() as int);
    assert(rescued_image(img, m0, m1, data) =~= img);
}

/// Writing a range out is what its becoming rescued makes of the image.
pub proof fn lemma_image_written(
    img: Seq<u8>,
    m0: Seq<SectorStatus>,
    p: int,
    l: int,
    data: Seq<u8>,
)
    requires
        0 <= p,
        0 < l,
        p + l <= m0.len(),
        p + l <= data.len(),
        forall|i: int| p <= i < p + l ==> #[trigger] m0[i] != SectorStatus::Rescued,
    ensures
        rescued_image(img, m0, marked(m0, p, l, SectorStatus::Rescued), data) == overwritten(
            img,
            p,
            data.subrange(p, p + l),
        ),
{
    let m1 = marked(m0, p, l, SectorStatus::Rescued);
    lemma_fresh_end(m0, m1, m1.len() as int);
    assert forall|i: int| #[trigger] newly(m0, m1, i) <==> p <= i < p + l by {
        if p <= i < p + l {
            assert(m0[i] != SectorStatus::Rescued);
        }
    }
    assert(newly(m0, m1, p + l - 1));
    assert(rescued_image(img, m0, m1, data) =~= overwritten(img, p, data.subrange(p, p + l)));
}

/// What imaging may do to one byte of the map; `al` tells that the map is
/// aligned to sectors.
pub open spec fn byte_step<S: SectorSource>(
    al: bool,
    src: S,
    m0: Seq<SectorStatus>,
    m1: Seq<SectorStatus>,
    i: int,
) -> bool {
    // rescued bytes stay rescued, and bad ones change to rescued only
    &&& m0[i] == SectorStatus::Rescued ==> m1[i] == SectorStatus::Rescued
    &&& settled(m0[i]) ==> settled(m1[i])
    // a byte becomes rescued by a read that may succeed
    &&& m1[i] == SectorStatus::Rescued && m0[i] != SectorStatus::Rescued ==> i < src.data().len()
        && !dead(src, i)
    // and bad by a read of its own sector that may fail
    &&& al && m1[i] == SectorStatus::Bad && m0[i] != SectorStatus::Bad ==> !sound(
        src,
        m0.len() as int,
        i,
    )
}

/// The map of a source moved from `m0` to `m1` by imaging.
pub open spec fn map_step<S: SectorSource>(
    al: bool,
    src0: S,
    m0: Seq<SectorStatus>,
    src1: S,
    m1: Seq<SectorStatus>,
) -> bool {
    &&& src1.data() == src0.data()
    &&& src1.sector_len() == src0.sector_len()
    &&& still_readable(src0, src1)
    &&& m1.len() == m0.len()
    &&& al ==> aligned(m1, src0.sector_len() as int)
    &&& forall|i: int| 0 <= i < m1.len() ==> #[trigger] byte_step(al, src0, m0, m1, i)
}

/// Imaging moved the map from `m0` to `m1`, and the image holds exactly
/// the newly rescued bytes in addition.
pub open spec fn advances<S: SectorSource>(
    al: bool,
    src0: S,
    img0: Seq<u8>,
    m0: Seq<SectorStatus>,
    src1: S,
    img1: Seq<u8>,
    m1: Seq<SectorStatus>,
) -> bool {
    &&& map_step(al, src0, m0, src1, m1)
    &&& img1 == rescued_image(img0, m0, m1, src0.data())
}

/// Imaging moved the map from `m0` to `m1` until a write failed: every
/// byte that the map calls rescued is still right in the image.
pub open spec fn survives<S: SectorSource>(
    al: bool,
    src0: S,
    img0: Seq<u8>,
    m0: Seq<SectorStatus>,
    src1: S,
    img1: Seq<u8>,
    m1: Seq<SectorStatus>,
) -> bool {
    &&& map_step(al, src0, m0, src1, m1)
    &&& img1.len() >= img0.len()
    &&& forall|i: int|
        0 <= i < m1.len() && #[trigger] m1[i] == SectorStatus::Rescued ==> if m0[i]
            == SectorStatus::Rescued {
            i < img0.len() ==> img1[i] == img0[i]
        } else {
            i < img1.len() && img1[i] == src0.data()[i]
        }
}

pub proof fn lemma_advances_refl<S: SectorSource>(
    al: bool,
    src: S,
    img: Seq<u8>,
    m: Seq<SectorStatus>,
)
    requires
        al ==> aligned(m, src.sector_len() as int),
    ensures
        advances(al, src, img, m, src, img, m),
{
    lemma_image_stays(img, m, m, src.data());
}

proof fn lemma_map_step_trans<S: SectorSource>(
    al: bool,
    src0: S,
    m0: Seq<SectorStatus>,
    src1: S,
    m1: Seq<SectorStatus>,
    src2: S,
    m2: Seq<SectorStatus>,
)
    requires
        map_step(al, src0, m0, src1, m1),
        map_step(al, src1, m1, src2, m2),
    ensures
        map_step(al, src0, m0, src2, m2),
{
    assert forall|i: int| 0 <= i < m2.len() implies #[trigger] byte_step(al, src0, m0, m2, i) by {
        assert(byte_step(al, src0, m0, m1, i));
        assert(byte_step(al, src1, m1, m2, i));
        if dead(src0, i) {
            assert(dead(src1, i));
        }
    }
}

/// Work followed by work is work.
pub proof fn lemma_advances_trans<S: SectorSource>(
    al: bool,
    src0: S,
    img0: Seq<u8>,
    m0: Seq<SectorStatus>,
    src1: S,
    img1: Seq<u8>,
    m1: Seq<SectorStatus>,
    src2: S,
    img2: Seq<u8>,
    m2: Seq<SectorStatus>,
)
    requires
        advances(al, src0, img0, m0, src1, img1, m1),
        advances(al, src1, img1, m1, src2, img2, m2),
    ensures
        advances(al, src0, img0, m0, src2, img2, m2),
{
    lemma_map_step_trans(al, src0, m0, src1, m1, src2, m2);
    let n = m0.len() as int;
    lemma_fresh_end(m0, m1, n);
    lemma_fresh_end(m1, m2, n);
    lemma_fresh_end(m0, m2, n);
    assert forall|i: int| #[trigger] newly(m0, m2, i) <==> newly(m0, m1, i) || newly(m1, m2, i) by {
        if 0 <= i < n {
            assert(byte_step(al, src0, m0, m1, i));
            assert(byte_step(al, src1, m1, m2, i));
        }
    }
    let a = fresh_end(m0, m1, n);
    let b = fresh_end(m1, m2, n);
    let c = fresh_end(m0, m2, n);
    assert(a > 0 ==> newly(m0, m2, a - 1));
    assert(b > 0 ==> newly(m0, m2, b - 1));
    assert(c == a || c == b);
    assert(c >= a && c >= b);
    let img = rescued_image(img0, m0, m2, src0.data());
    assert(img2.len() == img.len());
    assert forall|i: int| 0 <= i < img2.len() implies #[trigger] img2[i] == img[i] by {
        assert(newly(m0, m2, i) <==> newly(m0, m1, i) || newly(m1, m2, i));
    }
    assert(img2 =~= img);
}

/// Work followed by work that a failed write ends.
pub proof fn lemma_survives_trans<S: SectorSource>(
    al: bool,
    src0: S,
    img0: Seq<u8>,
    m0: Seq<SectorStatus>,
    src1: S,
    img1: Seq<u8>,
    m1: Seq<SectorStatus>,
    src2: S,
    img2: Seq<u8>,
    m2: Seq<SectorStatus>,
)
    requires
        advances(al, src0, img0, m0, src1, img1, m1),
        survives(al, src1, img1, m1, src2, img2, m2),
    ensures
        survives(al, src0, img0, m0, src2, img2, m2),
{
    lemma_map_step_trans(al, src0, m0, src1, m1, src2, m2);
    lemma_fresh_end(m0, m1, m0.len() as int);
    assert forall|i: int|
        0 <= i < m2.len() && #[trigger] m2[i] == SectorStatus::Rescued implies if m0[i]
        == SectorStatus::Rescued {
        i < img0.len() ==> img2[i] == img0[i]
    } else {
        i < img2.len() && img2[i] == src0.data()[i]
    } by {
        assert(byte_step(al, src0, m0, m1, i));
        assert(byte_step(al, src1, m1, m2, i));
        assert(newly(m0, m1, i) || m1[i] == m0[i] || m1[i] != SectorStatus::Rescued);
        if m1[i] == SectorStatus::Rescued {
            assert(newly(m0, m1, i) <==> m0[i] != SectorStatus::Rescued);
        }
    }
}

pub proof fn lemma_advances_survives<S: SectorSource>(
    al: bool,
    src0: S,
    img0: Seq<u8>,
    m0: Seq<SectorStatus>,
    src1: S,
    img1: Seq<u8>,
    m1: Seq<SectorStatus>,
)
    requires
        advances(al, src0, img0, m0, src1, img1, m1),
    ensures
        survives(al, src0, img0, m0, src1, img1, m1),
{
    lemma_fresh_end(m0, m1, m0.len() as int);
    assert forall|i: int|
        0 <= i < m1.len() && #[trigger] m1[i] == SectorStatus::Rescued implies if m0[i]
        == SectorStatus::Rescued {
        i < img0.len() ==> img1[i] == img0[i]
    } else {
        i < img1.len() && img1[i] == src0.data()[i]
    } by {
        assert(newly(m0, m1, i) <==> m0[i] != SectorStatus::Rescued);
    }
}

/// `i` is at or after the start of sector `k` exactly when its sector is.
pub proof fn lemma_sector_ge(i: int, ss: int, k: int)
    requires
        ss > 0,
    ensures
        i / ss >= k <==> i >= k * ss,
{
    vstd::arithmetic::div_mod::lemma_fundamental_div_mod(i, ss);
    vstd::arithmetic::div_mod::lemma_mod_bound(i, ss);
    let q = i / ss;
    assert(q >= k ==> ss * q >= k * ss) by (nonlinear_arith)
        requires
            ss > 0,
    ;
    assert(q < k ==> ss * q + ss <= k * ss) by (nonlinear_arith)
        requires
            ss > 0,
    ;
}

/// A multiple of the sector size is where its own sector starts.
pub proof fn lemma_multiple(p: int, ss: int)
    requires
        ss > 0,
        p % ss == 0,
    ensures
        p == (p / ss) * ss,
{
    vstd::arithmetic::div_mod::lemma_fundamental_div_mod(p, ss);
    assert(ss * (p / ss) == (p / ss) * ss) by (nonlinear_arith);
}

/// Marking whole sectors keeps a map aligned.
pub proof fn lemma_marked_aligned(
    m: Seq<SectorStatus>,
    ss: int,
    p: int,
    l: int,
    st: SectorStatus,
)
    requires
        ss > 0,
        aligned(m, ss),
        0 <= p,
        0 <= l,
        p + l <= m.len(),
        on_sectors(p, l, ss, m.len() as int),
    ensures
        aligned(marked(m, p, l, st), ss),
{
    let n = marked(m, p, l, st);
    lemma_multiple(p, ss);
    if (p + l) % ss == 0 {
        lemma_multiple(p + l, ss);
    }
    assert forall|i: int, j: int|
        0 <= i < n.len() && 0 <= j < n.len() && #[trigger] (i / ss) == #[trigger] (j
            / ss) implies n[i] == n[j] by {
        lemma_sector_ge(i, ss, p / ss);
        lemma_sector_ge(j, ss, p / ss);
        if (p + l) % ss == 0 {
            lemma_sector_ge(i, ss, (p + l) / ss);
            lemma_sector_ge(j, ss, (p + l) / ss);
        }
    }
}

/// In an aligned map a status changes only on a sector boundary.
pub proof fn lemma_change_on_boundary(m: Seq<SectorStatus>, ss: int, i: int)
    requires
        ss > 0,
        aligned(m, ss),
        0 < i < m.len(),
        m[i - 1] != m[i],
    ensures
        i % ss == 0,
{
    let q = i / ss;
    assert(i / ss != (i - 1) / ss);
    vstd::arithmetic::div_mod::lemma_fundamental_div_mod(i, ss);
    vstd::arithmetic::div_mod::lemma_mod_bound(i, ss);
    if i % ss != 0 {
        lemma_sector_ge(i - 1, ss, q);
        lemma_sector_ge(i - 1, ss, q + 1);
        assert(ss * q == q * ss) by (nonlinear_arith);
        assert((q + 1) * ss == q * ss + ss) by (nonlinear_arith);
    }
}

/// A range of at most one sector that starts and ends on boundaries is the
/// sector of each of its bytes.
pub proof fn lemma_one_sector(p: int, l: int, ss: int, size: int, i: int)
    requires
        ss > 0,
        0 <= p,
        0 < l <= ss,
        p + l <= size,
        on_sectors(p, l, ss, size),
        p <= i < p + l,
    ensures
        sector_start(i, ss) == p,
        sector_size_at(i, ss, size) == l,
{
    lemma_multiple(p, ss);
    let k = p / ss;
    lemma_sector_ge(i, ss, k);
    lemma_sector_ge(i, ss, k + 1);
    assert((k + 1) * ss == k * ss + ss) by (nonlinear_arith);
    assert(i / ss == k);
    if (p + l) % ss == 0 {
        lemma_multiple(p + l, ss);
        let e = (p + l) / ss;
        assert(e > k) by (nonlinear_arith)
            requires
                e * ss > k * ss,
                ss > 0,
        ;
        assert(e * ss >= (k + 1) * ss) by (nonlinear_arith)
            requires
                e >= k + 1,
                ss > 0,
        ;
    }
}

} // verus!
