//! Read side of the imaging engine, plus a fault-injecting wrapper used by
//! tests and the `--simulate-bad` demo flag.

use std::io;
use std::ops::Range;
use vstd::prelude::*;

verus! {

/// Declares `std::io::Error`, which is only carried from a device to the
/// caller and never looked into.
#[verifier::external_type_specification]
#[verifier::external_body]
pub struct ExIoError(io::Error);

/// Why a read of a source failed.
#[derive(Debug)]
pub enum SourceError {
    /// The request runs past the end of the source.
    PastEnd,
    /// A fault that [`FaultySource`] injected.
    Simulated,
    /// The device reported an error.
    Device(io::Error),
}

/// A source of sectors. Reads may fail; what a source promises of its
/// failures is told by the specification functions `readable` and
/// `unreadable`, which say nothing of the ranges for which neither holds.
pub trait SectorSource {
    /// The bytes that the source holds, readable or not; of a source
    /// outside this crate, whatever they are.
    open spec fn data(&self) -> Seq<u8> {
        arbitrary::<spec_fn(&Self) -> Seq<u8>>()(self)
    }

    /// The size of a sector in bytes.
    open spec fn sector_len(&self) -> u32 {
        arbitrary::<spec_fn(&Self) -> u32>()(self)
    }

    /// Reading `[offset, offset + len)` succeeds, now and after any reads.
    /// A source promises nothing unless it says so.
    open spec fn readable(&self, offset: int, len: int) -> bool {
        false
    }

    /// Reading `[offset, offset + len)` fails, now and after any reads.
    open spec fn unreadable(&self, offset: int, len: int) -> bool {
        false
    }

    /// A read at `offset` into a buffer with the bytes `before` may turn the
    /// source into `next`, leave `after` in the buffer and return `r`. A
    /// source promises nothing more unless it says so.
    open spec fn may_read(
        &self,
        offset: int,
        before: Seq<u8>,
        next: &Self,
        after: Seq<u8>,
        r: Result<(), SourceError>,
    ) -> bool {
        true
    }

    fn size(&self) -> (n: u64)
        ensures
            n == self.data().len(),
    ;

    fn sector_size(&self) -> (n: u32)
        ensures
            n == self.sector_len(),
    ;

    /// Positioned read filling `buf` completely. An `Err` means the whole
    /// request failed; the engine narrows it down via trim/scrape.
    fn read_at(&mut self, offset: u64, buf: &mut [u8]) -> (r: Result<(), SourceError>)
        requires
            offset + old(buf)@.len() <= u64::MAX,
        ensures
            final(self).data() == old(self).data(),
            final(self).sector_len() == old(self).sector_len(),
            forall|o: int, l: int|
                old(self).readable(o, l) ==> #[trigger] final(self).readable(o, l),
            forall|o: int, l: int|
                old(self).unreadable(o, l) ==> #[trigger] final(self).unreadable(o, l),
            final(buf)@.len() == old(buf)@.len(),
            r is Ok ==> {
                &&& offset + old(buf)@.len() <= old(self).data().len()
                &&& final(buf)@ == old(self).data().subrange(
                    offset as int,
                    offset + old(buf)@.len(),
                )
            },
            old(self).readable(offset as int, old(buf)@.len() as int) ==> r is Ok,
            old(self).unreadable(offset as int, old(buf)@.len() as int) ==> r is Err,
            old(self).may_read(offset as int, old(buf)@, final(self), final(buf)@, r),
    ;
}

/// What `a` promised of its reads, `b` promises too.
pub open spec fn still_readable<S: SectorSource>(a: S, b: S) -> bool {
    &&& forall|o: int, l: int| a.readable(o, l) ==> #[trigger] b.readable(o, l)
    &&& forall|o: int, l: int| a.unreadable(o, l) ==> #[trigger] b.unreadable(o, l)
}

/// `n` is a multiple of the sector size `ss`.
pub open spec fn is_whole(n: int, ss: int) -> bool {
    if ss == 0 {
        n == 0
    } else {
        n % ss == 0
    }
}

/// Whether a read lies on sector boundaries. Direct reads must; others go
/// through a buffered handle.
pub fn is_sector_read(offset: u64, len: u64, sector_size: u32) -> (r: bool)
    ensures
        r == (is_whole(offset as int, sector_size as int) && is_whole(
            len as int,
            sector_size as int,
        )),
{
    let ss: u64 = sector_size as u64;
    offset.is_multiple_of(ss) && len.is_multiple_of(ss)
}

/// One injected fault. `remaining_failures: None` fails forever;
/// `Some(n)` heals after n failed attempts (exercises the retry pass).
#[derive(Debug)]
pub struct BadRegion {
    pub range: Range<u64>,
    pub remaining_failures: Option<u32>,
}

impl Clone for BadRegion {
    fn clone(&self) -> (r: Self)
        ensures
            r == *self,
    {
        BadRegion {
            range: Range { start: self.range.start, end: self.range.end },
            remaining_failures: self.remaining_failures,
        }
    }
}

impl BadRegion {
    pub fn forever(range: Range<u64>) -> (r: Self)
        ensures
            r.range == range,
            r.remaining_failures is None,
    {
        BadRegion { range, remaining_failures: None }
    }

    pub fn heals_after(range: Range<u64>, failures: u32) -> (r: Self)
        ensures
            r.range == range,
            r.remaining_failures == Some(failures),
    {
        BadRegion { range, remaining_failures: Some(failures) }
    }

    /// A read of `[offset, offset + len)` touches the region.
    pub open spec fn touches(self, offset: int, len: int) -> bool {
        self.range.start < offset + len && self.range.end > offset
    }

    /// The region still makes reads fail.
    pub open spec fn active(self) -> bool {
        self.remaining_failures != Some(0u32)
    }

    /// The region after one read of `[offset, offset + len)`.
    pub open spec fn after_read(self, offset: int, len: int) -> BadRegion {
        match self.remaining_failures {
            Some(n) if n > 0 && self.touches(offset, len) => BadRegion {
                range: self.range,
                remaining_failures: Some((n - 1) as u32),
            },
            _ => self,
        }
    }
}

/// Some region of `bad` makes a read of `[offset, offset + len)` fail.
pub open spec fn faulted(bad: Seq<BadRegion>, offset: int, len: int) -> bool {
    exists|i: int| 0 <= i < bad.len() && #[trigger] bad[i].touches(offset, len) && bad[i].active()
}

/// The regions `next` are the regions `bad` after one read.
pub open spec fn used_up(bad: Seq<BadRegion>, offset: int, len: int, next: Seq<BadRegion>) -> bool {
    &&& next.len() == bad.len()
    &&& forall|i: int|
        0 <= i < bad.len() ==> #[trigger] next[i] == bad[i].after_read(offset, len)
}

/// Wraps a source and injects read errors for configured ranges.
pub struct FaultySource<S: SectorSource> {
    pub inner: S,
    pub bad: Vec<BadRegion>,
}

impl<S: SectorSource> FaultySource<S> {
    pub fn new(inner: S, bad: Vec<BadRegion>) -> (r: Self)
        ensures
            r.inner == inner,
            r.bad == bad,
    {
        FaultySource { inner, bad }
    }
}

impl<S: SectorSource> SectorSource for FaultySource<S> {
    open spec fn data(&self) -> Seq<u8> {
        self.inner.data()
    }

    open spec fn sector_len(&self) -> u32 {
        self.inner.sector_len()
    }

    /// No active region is touched, and the wrapped source is readable.
    open spec fn readable(&self, offset: int, len: int) -> bool {
        self.inner.readable(offset, len) && !faulted(self.bad@, offset, len)
    }

    /// A region that never heals is touched, or the wrapped source is
    /// unreadable.
    open spec fn unreadable(&self, offset: int, len: int) -> bool {
        ||| self.inner.unreadable(offset, len)
        ||| exists|i: int|
            0 <= i < self.bad@.len() && #[trigger] self.bad@[i].touches(offset, len)
                && self.bad@[i].remaining_failures is None
    }

    /// Every region that the read touches is used up by one failure. A
    /// touched active region makes the read fail without a look at the
    /// wrapped source; else that source decides.
    open spec fn may_read(
        &self,
        offset: int,
        before: Seq<u8>,
        next: &Self,
        after: Seq<u8>,
        r: Result<(), SourceError>,
    ) -> bool {
        &&& used_up(self.bad@, offset, before.len() as int, next.bad@)
        &&& if faulted(self.bad@, offset, before.len() as int) {
            &&& r == Err::<(), SourceError>(SourceError::Simulated)
            &&& next.inner == self.inner
            &&& after == before
        } else {
            self.inner.may_read(offset, before, &next.inner, after, r)
        }
    }

    fn size(&self) -> (n: u64) {
        self.inner.size()
    }

    fn sector_size(&self) -> (n: u32) {
        self.inner.sector_size()
    }

    fn read_at(&mut self, offset: u64, buf: &mut [u8]) -> (r: Result<(), SourceError>) {
        let len: u64 = buf.len() as u64;
        let end: u64 = offset + len;
        let mut fail: bool = false;
        let n: usize = self.bad.len();
        let mut k: usize = 0;
        while k < n
            invariant
                k <= n,
                n == self.bad@.len(),
                n == old(self).bad@.len(),
                end == offset + len,
                self.inner == old(self).inner,
                fail == exists|i: int|
                    0 <= i < k && #[trigger] old(self).bad@[i].touches(offset as int, len as int)
                        && old(self).bad@[i].active(),
                forall|i: int|
                    0 <= i < k ==> #[trigger] self.bad@[i] == old(self).bad@[i].after_read(
                        offset as int,
                        len as int,
                    ),
                forall|i: int| k <= i < n ==> #[trigger] self.bad@[i] == old(self).bad@[i],
            decreases n - k,
        {
            let start: u64 = self.bad[k].range.start;
            let stop: u64 = self.bad[k].range.end;
            let left: Option<u32> = self.bad[k].remaining_failures;
            assert(self.bad@[k as int] == old(self).bad@[k as int]);
            if start < end && stop > offset {
                assert(old(self).bad@[k as int].touches(offset as int, len as int));
                match left {
                    None => {
                        fail = true;
                    },
                    Some(m) => {
                        if m > 0 {
                            self.bad.set(
                                k,
                                BadRegion {
                                    range: Range { start, end: stop },
                                    remaining_failures: Some(m - 1),
                                },
                            );
                            fail = true;
                        }
                    },
                }
            }
            k = k + 1;
        }
        proof {
            assert forall|o: int, l: int| faulted(self.bad@, o, l) implies faulted(
                old(self).bad@,
                o,
                l,
            ) by {
                let i = choose|i: int|
                    0 <= i < self.bad@.len() && #[trigger] self.bad@[i].touches(o, l)
                        && self.bad@[i].active();
                assert(self.bad@[i] == old(self).bad@[i].after_read(offset as int, len as int));
                assert(old(self).bad@[i].touches(o, l));
            }
            assert forall|o: int, l: int| old(self).unreadable(o, l) implies self.unreadable(
                o,
                l,
            ) by {
                if !old(self).inner.unreadable(o, l) {
                    let i = choose|i: int|
                        0 <= i < old(self).bad@.len() && #[trigger] old(self).bad@[i].touches(o, l)
                            && old(self).bad@[i].remaining_failures is None;
                    assert(self.bad@[i] == old(self).bad@[i].after_read(offset as int, len as int));
                    assert(self.bad@[i].touches(o, l));
                }
            }
        }
        if fail {
            return Err(SourceError::Simulated);
        }
        let ghost touched = *self;
        let r = self.inner.read_at(offset, buf);
        proof {
            assert forall|o: int, l: int|
                old(self).unreadable(o, l) implies #[trigger] self.unreadable(o, l) by {
                assert(touched.unreadable(o, l));
                if !touched.inner.unreadable(o, l) {
                    let i = choose|i: int|
                        0 <= i < touched.bad@.len() && #[trigger] touched.bad@[i].touches(o, l)
                            && touched.bad@[i].remaining_failures is None;
                    assert(self.bad@[i].touches(o, l));
                }
            }
        }
        r
    }
}

/// In-memory source for unit tests.
pub struct MemSource {
    pub data: Vec<u8>,
    pub sector_size: u32,
}

impl MemSource {
    pub fn new(data: Vec<u8>, sector_size: u32) -> (r: Self)
        ensures
            r.data == data,
            r.sector_size == sector_size,
    {
        MemSource { data, sector_size }
    }
}

impl SectorSource for MemSource {
    open spec fn data(&self) -> Seq<u8> {
        self.data@
    }

    open spec fn sector_len(&self) -> u32 {
        self.sector_size
    }

    open spec fn readable(&self, offset: int, len: int) -> bool {
        offset + len <= self.data@.len()
    }

    open spec fn unreadable(&self, offset: int, len: int) -> bool {
        offset + len > self.data@.len()
    }

    open spec fn may_read(
        &self,
        offset: int,
        before: Seq<u8>,
        next: &Self,
        after: Seq<u8>,
        r: Result<(), SourceError>,
    ) -> bool {
        &&& *next == *self
        &&& if offset + before.len() <= self.data@.len() {
            r is Ok && after == self.data@.subrange(offset, offset + before.len())
        } else {
            r == Err::<(), SourceError>(SourceError::PastEnd) && after == before
        }
    }

    fn size(&self) -> (n: u64) {
        self.data.len() as u64
    }

    fn sector_size(&self) -> (n: u32) {
        self.sector_size
    }

    fn read_at(&mut self, offset: u64, buf: &mut [u8]) -> (r: Result<(), SourceError>) {
        let n: usize = buf.len();
        let end: u64 = offset + n as u64;
        if end > self.data.len() as u64 {
            return Err(SourceError::PastEnd);
        }
        copy_range(self.data.as_slice(), offset as usize, buf);
        Ok(())
    }
}

/// Fill `buf` with the bytes of `data` that start at `at`.
pub(crate) fn copy_range(data: &[u8], at: usize, buf: &mut [u8])
    requires
        at + old(buf)@.len() <= data@.len(),
    ensures
        final(buf)@ == data@.subrange(at as int, at + old(buf)@.len()),
{
    let n: usize = buf.len();
    assert(data.len() <= usize::MAX);
    let mut i: usize = 0;
    while i < n
        invariant
            i <= n,
            at + n <= usize::MAX,
            n == buf@.len(),
            n == old(buf)@.len(),
            at + n <= data@.len(),
            forall|j: int| 0 <= j < i ==> #[trigger] buf@[j] == data@[at + j],
        decreases n - i,
    {
        buf[i] = data[at + i];
        i = i + 1;
    }
    assert(buf@ =~= data@.subrange(at as int, at + n));
}

} // verus!
