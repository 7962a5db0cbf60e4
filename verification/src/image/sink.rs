//! Write side of the imaging engine. Bad sectors are never written, so the
//! image stays sparse: holes mark exactly the data that was never rescued.

use std::io;
use vstd::prelude::*;

verus! {

/// `a` is at least as long as `len`, with zeros appended where it was not.
pub open spec fn extended(a: Seq<u8>, len: int) -> Seq<u8> {
    if a.len() < len {
        Seq::new(
            len as nat,
            |i: int|
                if i < a.len() {
                    a[i]
                } else {
                    0u8
                },
        )
    } else {
        a
    }
}

/// `a` after `bytes` were written at `offset`; a gap reads as zeros.
pub open spec fn overwritten(a: Seq<u8>, offset: int, bytes: Seq<u8>) -> Seq<u8> {
    let b = extended(a, offset + bytes.len());
    Seq::new(
        b.len(),
        |i: int|
            if offset <= i < offset + bytes.len() {
                bytes[i - offset]
            } else {
                b[i]
            },
    )
}

/// An operation of a sink.
pub enum SinkOp {
    Write { offset: int, data: Seq<u8> },
    SetLen(int),
    Flush,
}

/// The destination of an image.
pub trait ImageSink {
    /// The image written so far; of a sink outside this crate, whatever it
    /// is.
    open spec fn image(&self) -> Seq<u8> {
        arbitrary::<spec_fn(&Self) -> Seq<u8>>()(self)
    }

    /// No operation on an image of up to `len` bytes fails. A sink promises
    /// nothing unless it says so.
    open spec fn reliable(&self, len: int) -> bool {
        false
    }

    /// The longest image that a sink of this kind can hold.
    open spec fn capacity() -> int {
        u64::MAX as int
    }

    /// The image that is safe from a crash: the one of the last flush. Of a
    /// sink outside this crate, whatever it is.
    open spec fn flushed(&self) -> Seq<u8> {
        arbitrary::<spec_fn(&Self) -> Seq<u8>>()(self)
    }

    /// An operation may turn the sink into `next` and return `r`. A sink
    /// promises nothing more unless it says so.
    open spec fn may_return(&self, op: SinkOp, next: &Self, r: io::Result<()>) -> bool {
        true
    }

    /// Write `data` at `offset`. A write that fails may have changed the
    /// bytes it was to write, and no others.
    fn write_at(&mut self, offset: u64, data: &[u8]) -> (r: io::Result<()>)
        requires
            offset + data@.len() <= Self::capacity(),
        ensures
            forall|l: int| old(self).reliable(l) ==> #[trigger] final(self).reliable(l),
            r is Ok ==> final(self).image() == overwritten(
                old(self).image(),
                offset as int,
                data@,
            ),
            r is Err ==> {
                &&& final(self).image().len() >= old(self).image().len()
                &&& forall|i: int|
                    0 <= i < old(self).image().len() && !(offset <= i < offset + data@.len())
                        ==> #[trigger] final(self).image()[i] == old(self).image()[i]
            },
            forall|l: int|
                offset + data@.len() <= l && #[trigger] old(self).reliable(l) ==> r is Ok,
            old(self).may_return(
                SinkOp::Write { offset: offset as int, data: data@ },
                final(self),
                r,
            ),
    ;

    /// Pre-size the image (sparse where supported). An image that is
    /// already longer is left as it is.
    fn set_len(&mut self, len: u64) -> (r: io::Result<()>)
        requires
            len <= Self::capacity(),
        ensures
            forall|l: int| old(self).reliable(l) ==> #[trigger] final(self).reliable(l),
            r is Ok ==> final(self).image() == extended(old(self).image(), len as int),
            r is Err ==> final(self).image() == old(self).image(),
            forall|l: int| len <= l && #[trigger] old(self).reliable(l) ==> r is Ok,
            old(self).may_return(SinkOp::SetLen(len as int), final(self), r),
    ;

    fn flush(&mut self) -> (r: io::Result<()>)
        ensures
            forall|l: int| old(self).reliable(l) ==> #[trigger] final(self).reliable(l),
            final(self).image() == old(self).image(),
            forall|l: int| #[trigger] old(self).reliable(l) ==> r is Ok,
            r is Ok ==> final(self).flushed() == final(self).image(),
            old(self).may_return(SinkOp::Flush, final(self), r),
    ;
}

/// In-memory sink for unit tests.
pub struct MemSink {
    pub data: Vec<u8>,
}

impl Default for MemSink {
    fn default() -> (r: Self)
        ensures
            r.data@.len() == 0,
    {
        MemSink { data: Vec::new() }
    }
}

impl ImageSink for MemSink {
    open spec fn image(&self) -> Seq<u8> {
        self.data@
    }

    open spec fn reliable(&self, len: int) -> bool {
        true
    }

    /// It lies in memory.
    open spec fn capacity() -> int {
        usize::MAX as int
    }

    /// There is nothing that a flush would have to do.
    open spec fn flushed(&self) -> Seq<u8> {
        self.data@
    }

    open spec fn may_return(&self, op: SinkOp, next: &Self, r: io::Result<()>) -> bool {
        &&& r is Ok
        &&& next.data@ == match op {
            SinkOp::Write { offset, data } => overwritten(self.data@, offset, data),
            SinkOp::SetLen(len) => extended(self.data@, len),
            SinkOp::Flush => self.data@,
        }
    }

    fn write_at(&mut self, offset: u64, data: &[u8]) -> (r: io::Result<()>) {
        let n: usize = data.len();
        let at: usize = offset as usize;
        let end: usize = at + n;
        if self.data.len() < end {
            self.data.resize(end, 0);
        }
        let ghost before = self.data@;
        assert(before =~= extended(old(self).data@, offset + n));
        let mut i: usize = 0;
        while i < n
            invariant
                i <= n,
                n == data@.len(),
                end == at + n,
                end <= before.len(),
                self.data@.len() == before.len(),
                forall|j: int|
                    0 <= j < before.len() ==> #[trigger] self.data@[j] == if at <= j < at + i {
                        data@[j - at]
                    } else {
                        before[j]
                    },
            decreases n - i,
        {
            self.data.set(at + i, data[i]);
            i = i + 1;
        }
        assert(self.data@ =~= overwritten(old(self).data@, offset as int, data@));
        Ok(())
    }

    fn set_len(&mut self, len: u64) -> (r: io::Result<()>) {
        if self.data.len() < len as usize {
            self.data.resize(len as usize, 0);
        }
        assert(self.data@ =~= extended(old(self).data@, len as int));
        Ok(())
    }

    fn flush(&mut self) -> (r: io::Result<()>) {
        Ok(())
    }
}

} // verus!
