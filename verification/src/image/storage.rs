//! What sources and sinks in memory hold.

use super::sink::{extended, overwritten};
use super::source::{faulted, BadRegion, MemSource, SectorSource, SourceError};
use vstd::prelude::*;

verus! {

/// What was written is there, what was there before and not written over
/// stays, and a gap between them reads as zeros.
pub proof fn lemma_writes_read_back(a: Seq<u8>, offset: int, bytes: Seq<u8>)
    requires
        offset >= 0,
    ensures
        ({
            let b = overwritten(a, offset, bytes);
            let end = offset + bytes.len();
            &&& b.len() == if a.len() < end {
                end
            } else {
                a.len() as int
            }
            &&& b.subrange(offset, end) == bytes
            &&& forall|i: int|
                0 <= i < a.len() && !(offset <= i < end) ==> #[trigger] b[i] == a[i]
            &&& forall|i: int| a.len() <= i < offset ==> #[trigger] b[i] == 0
        }),
{
    let b = overwritten(a, offset, bytes);
    assert(b.subrange(offset, offset + bytes.len()) =~= bytes);
}

/// Two writes to places that do not overlap can be made in either order.
pub proof fn lemma_writes_commute(a: Seq<u8>, p: int, x: Seq<u8>, q: int, y: Seq<u8>)
    requires
        0 <= p,
        p + x.len() <= q,
    ensures
        overwritten(overwritten(a, p, x), q, y) == overwritten(overwritten(a, q, y), p, x),
{
    assert(overwritten(overwritten(a, p, x), q, y) =~= overwritten(overwritten(a, q, y), p, x));
}

/// Giving an image a length keeps what is there, and fills up with zeros.
pub proof fn lemma_lengthening_keeps(a: Seq<u8>, len: int)
    requires
        len >= 0,
    ensures
        extended(a, len).len() >= len,
        extended(a, len).len() == len || extended(a, len).len() == a.len(),
        extended(a, len).take(a.len() as int) == a,
        forall|i: int|
            a.len() <= i < extended(a, len).len() ==> #[trigger] extended(a, len)[i] == 0,
{
    assert(extended(a, len).take(a.len() as int) =~= a);
}

/// A read touches a fault if it reads a byte of it.
pub proof fn lemma_faults_are_touched(b: BadRegion, offset: int, len: int, i: int)
    requires
        offset <= i < offset + len,
        b.range.start <= i < b.range.end,
    ensures
        b.touches(offset, len),
{
}

/// A read that reads no byte of a fault does not touch it.
pub proof fn lemma_other_reads_do_not_touch(b: BadRegion, offset: int, len: int)
    requires
        len > 0,
        b.range.start < b.range.end,
        forall|i: int| #![trigger b.touches(i, 1)] offset <= i < offset + len ==> !(b.range.start
            <= i < b.range.end),
    ensures
        !b.touches(offset, len),
{
    if b.touches(offset, len) {
        let i = if b.range.start >= offset {
            b.range.start as int
        } else {
            offset
        };
        assert(offset <= i < offset + len);
        assert(b.touches(i, 1));
    }
}

/// A fault fails every read that touches it until it has healed; each such
/// read takes one failure off, and no other read does.
pub proof fn lemma_faults_wear_off(b: BadRegion, offset: int, len: int)
    ensures
        b.after_read(offset, len).range == b.range,
        b.remaining_failures is None ==> b.active() && b.after_read(offset, len) == b,
        b.remaining_failures matches Some(n) ==> {
            &&& b.active() == (n > 0)
            &&& b.after_read(offset, len).remaining_failures == if n > 0 && b.touches(offset, len) {
                Some((n - 1) as u32)
            } else {
                Some(n)
            }
        },
{
}

/// A read of `[offset, offset + len)` reads the byte `i` of a fault that has
/// not healed.
pub open spec fn hits(b: BadRegion, offset: int, len: int, i: int) -> bool {
    &&& offset <= i < offset + len
    &&& b.range.start <= i < b.range.end
    &&& b.remaining_failures != Some(0u32)
}

/// A read fails for a fault if and only if it reads a byte of one that has
/// not healed.
pub proof fn lemma_faulted_reads(bad: Seq<BadRegion>, offset: int, len: int)
    requires
        len > 0,
        forall|k: int| 0 <= k < bad.len() ==> (#[trigger] bad[k]).range.start < bad[k].range.end,
    ensures
        faulted(bad, offset, len) <==> exists|k: int, i: int|
            0 <= k < bad.len() && #[trigger] hits(bad[k], offset, len, i),
{
    if faulted(bad, offset, len) {
        let k = choose|k: int|
            0 <= k < bad.len() && #[trigger] bad[k].touches(offset, len) && bad[k].active();
        let b = bad[k];
        let i = if b.range.start >= offset {
            b.range.start as int
        } else {
            offset
        };
        assert(hits(bad[k], offset, len, i));
    }
    if exists|k: int, i: int| 0 <= k < bad.len() && #[trigger] hits(bad[k], offset, len, i) {
        let (k, i) = choose|k: int, i: int|
            0 <= k < bad.len() && #[trigger] hits(bad[k], offset, len, i);
        assert(bad[k].touches(offset, len));
    }
}

/// A source in memory gives the bytes that it holds, and refuses reads past
/// its end.
pub proof fn lemma_memory_is_read(
    s: MemSource,
    offset: int,
    before: Seq<u8>,
    t: MemSource,
    after: Seq<u8>,
    r: Result<(), SourceError>,
)
    requires
        0 <= offset,
        s.may_read(offset, before, &t, after, r),
    ensures
        t == s,
        r is Ok <==> offset + before.len() <= s.data@.len(),
        r is Ok ==> after.len() == before.len() && forall|i: int|
            0 <= i < before.len() ==> #[trigger] after[i] == s.data@[offset + i],
        r is Err ==> after == before,
{
}

} // verus!
