//! The carver abstraction: a cheap magic-byte pre-filter ([`CarverSpec`])
//! plus a `measure` that validates the header and computes the file's
//! total length, exactly, via structure walking, where the format allows
//! it.

use super::bytes::holds;
use super::formats::asf::Asf;
use super::formats::bmp::Bmp;
use super::formats::gif::Gif;
use super::formats::isobmff::IsoBmff;
use super::formats::jpeg::Jpeg;
use super::formats::matroska::Matroska;
use super::formats::mpeg::{MpegPs, MpegTs};
use super::formats::pdf::Pdf;
use super::formats::png::Png;
use super::formats::riff::Riff;
use super::formats::tiff::Tiff;
use crate::image::source::copy_range;
use std::io;
use vstd::prelude::*;

verus! {

/// The longest input that can be carved: offsets into a file are signed.
pub const MAX_INPUT: u64 = 0x7FFF_FFFF_FFFF_FFFF;

/// Positioned reader over the carve input (image file or raw source).
pub trait ReadAt {
    /// The bytes of the input; of an input outside this crate, whatever
    /// they are.
    open spec fn contents(&self) -> Seq<u8> {
        arbitrary::<spec_fn(&Self) -> Seq<u8>>()(self)
    }

    /// No read fails. A reader promises nothing unless it says so.
    open spec fn reliable(&self) -> bool {
        false
    }

    fn total_len(&self) -> (n: u64)
        ensures
            n == self.contents().len(),
    ;

    /// Read bytes from `offset` on into the start of `buf`, and tell how
    /// many; the rest of `buf` stays as it is. Nothing is read only at the
    /// end of the input.
    fn read_at(&mut self, offset: u64, buf: &mut [u8]) -> (r: io::Result<usize>)
        ensures
            final(self).contents() == old(self).contents(),
            old(self).reliable() ==> final(self).reliable() && r is Ok,
            final(buf)@.len() == old(buf)@.len(),
            r matches Ok(n) ==> {
                &&& n <= old(buf)@.len()
                &&& n > 0 ==> offset + n <= old(self).contents().len() && offset + n <= u64::MAX
                &&& n == 0 ==> old(buf)@.len() == 0 || offset >= old(self).contents().len()
                &&& forall|j: int|
                    0 <= j < n ==> #[trigger] final(buf)@[j] == old(self).contents()[offset + j]
                &&& forall|j: int|
                    n <= j < old(buf)@.len() ==> #[trigger] final(buf)@[j] == old(buf)@[j]
            },
    ;
}

impl ReadAt for &[u8] {
    open spec fn contents(&self) -> Seq<u8> {
        self@
    }

    open spec fn reliable(&self) -> bool {
        true
    }

    fn total_len(&self) -> (n: u64) {
        self.len() as u64
    }

    fn read_at(&mut self, offset: u64, buf: &mut [u8]) -> (r: io::Result<usize>)
        ensures
            *final(self) == *old(self),
            r matches Ok(n) && n == available(
                old(self)@.len() as int,
                offset as int,
                old(buf)@.len() as int,
            ),
    {
        let data: &[u8] = *self;
        let have: usize = data.len();
        if offset >= have as u64 {
            return Ok(0);
        }
        let start: usize = offset as usize;
        let rest: usize = have - start;
        let room: usize = buf.len();
        let n: usize = if room < rest {
            room
        } else {
            rest
        };
        let (head, _tail) = buf.split_at_mut(n);
        copy_range(data, start, head);
        Ok(n)
    }
}

/// How many of `n` bytes from `offset` on lie in an input of `len` bytes.
pub open spec fn available(len: int, offset: int, n: int) -> int {
    if offset + n <= len {
        n
    } else if offset < len {
        len - offset
    } else {
        0
    }
}

/// Read exactly `buf.len()` bytes or report how many were available; the
/// rest of `buf` stays as it is.
pub fn read_full<R: ReadAt>(r: &mut R, offset: u64, buf: &mut [u8]) -> (res: io::Result<usize>)
    ensures
        final(r).contents() == old(r).contents(),
        old(r).reliable() ==> final(r).reliable() && res is Ok,
        final(buf)@.len() == old(buf)@.len(),
        res matches Ok(n) ==> {
            &&& n == available(
                old(r).contents().len() as int,
                offset as int,
                old(buf)@.len() as int,
            )
            &&& forall|j: int|
                0 <= j < n ==> #[trigger] final(buf)@[j] == old(r).contents()[offset + j]
            &&& forall|j: int|
                n <= j < old(buf)@.len() ==> #[trigger] final(buf)@[j] == old(buf)@[j]
        },
{
    let n: usize = buf.len();
    let mut done: usize = 0;
    while done < n
        invariant
            n == buf@.len(),
            n == old(buf)@.len(),
            done <= n,
            r.contents() == old(r).contents(),
            old(r).reliable() ==> r.reliable(),
            done > 0 ==> offset + done <= r.contents().len() && offset + done <= u64::MAX,
            forall|j: int| 0 <= j < done ==> #[trigger] buf@[j] == r.contents()[offset + j],
            forall|j: int| done <= j < n ==> #[trigger] buf@[j] == old(buf)@[j],
        ensures
            done == n || offset + done >= r.contents().len(),
        decreases n - done,
    {
        let ghost before = buf@;
        let (head, tail) = buf.split_at_mut(done);
        match r.read_at(offset + done as u64, tail) {
            Ok(k) => {
                if k == 0 {
                    break;
                }
                done = done + k;
            },
            Err(e) => {
                return Err(e);
            },
        }
    }
    Ok(done)
}

/// The `n` bytes at `offset`, if the input holds them all.
pub fn bytes_at<R: ReadAt>(r: &mut R, offset: u64, n: usize) -> (res: io::Result<Option<Vec<u8>>>)
    ensures
        final(r).contents() == old(r).contents(),
        old(r).reliable() ==> final(r).reliable() && res is Ok,
        match res {
            Ok(Some(v)) => holds(old(r).contents(), offset as int, n as int) && v@
                == old(r).contents().subrange(offset as int, offset + n),
            Ok(None) => !holds(old(r).contents(), offset as int, n as int),
            Err(_) => true,
        },
{
    let mut v: Vec<u8> = vec![0u8; n];
    match read_full(r, offset, v.as_mut_slice()) {
        Ok(got) => {
            if got < n {
                return Ok(None);
            }
            if n == 0 && offset > r.total_len() {
                return Ok(None);
            }
            assert(v@ =~= r.contents().subrange(offset as int, offset + n));
            Ok(Some(v))
        },
        Err(e) => Err(e),
    }
}

/// What a format is recognised by.
pub struct CarverSpec {
    /// Format key used by `--formats` and reports, e.g. "mp4".
    pub name: &'static str,
    /// Default output extension.
    pub extension: &'static str,
    /// Any of these byte strings at `magic_offset` marks a candidate.
    pub magics: &'static [&'static [u8]],
    pub magic_offset: u64,
    /// Hard upper bound for a single carved file.
    pub max_len: u64,
}

/// The mathematical value of a [`CarverSpec`].
#[verifier::ext_equal]
pub struct Signature {
    pub name: Seq<char>,
    pub extension: Seq<char>,
    pub magics: Seq<Seq<u8>>,
    pub magic_offset: int,
    pub max_len: int,
}

impl View for CarverSpec {
    type V = Signature;

    open spec fn view(&self) -> Signature {
        Signature {
            name: self.name@,
            extension: self.extension@,
            magics: Seq::new(self.magics@.len(), |i: int| self.magics@[i]@),
            magic_offset: self.magic_offset as int,
            max_len: self.max_len as int,
        }
    }
}

/// A validated hit: total file length and the extension to use.
pub struct Measured {
    pub len: u64,
    pub extension: &'static str,
}

/// A length and an extension, or nothing.
pub type Measure = Option<(int, Seq<char>)>;

/// `r` is the measure `m`.
pub open spec fn is_measure(r: Option<Measured>, m: Measure) -> bool {
    match r {
        Some(x) => m == Some((x.len as int, x.extension@)),
        None => m is None,
    }
}

/// What recognises and measures the files of one format.
pub trait Carver {
    spec fn signature(&self) -> Signature;

    /// The length and extension of the file that starts at `start` in `d`;
    /// `None` where no file of the format starts.
    spec fn measured(&self, d: Seq<u8>, start: int) -> Measure;

    fn spec(&self) -> (s: CarverSpec)
        ensures
            s@ == self.signature(),
    ;

    /// `start` is the offset where the candidate file begins (magic was
    /// found at `start + magic_offset`). Returns None for false positives.
    fn measure<R: ReadAt>(&self, r: &mut R, start: u64) -> (res: io::Result<Option<Measured>>)
        requires
            start <= MAX_INPUT,
            old(r).contents().len() <= MAX_INPUT,
        ensures
            final(r).contents() == old(r).contents(),
            old(r).reliable() ==> final(r).reliable() && res is Ok,
            res matches Ok(m) ==> is_measure(m, self.measured(old(r).contents(), start as int)),
    ;
}

/// A carver of one of the known formats.
#[derive(Clone, Copy)]
pub enum BuiltinCarver {
    IsoBmff(IsoBmff),
    Riff(Riff),
    Matroska(Matroska),
    Asf(Asf),
    Png(Png),
    Gif(Gif),
    Bmp(Bmp),
    Tiff(Tiff),
    Jpeg(Jpeg),
    MpegPs(MpegPs),
    MpegTs(MpegTs),
    Pdf(Pdf),
}

impl Carver for BuiltinCarver {
    open spec fn signature(&self) -> Signature {
        match self {
            BuiltinCarver::IsoBmff(c) => c.signature(),
            BuiltinCarver::Riff(c) => c.signature(),
            BuiltinCarver::Matroska(c) => c.signature(),
            BuiltinCarver::Asf(c) => c.signature(),
            BuiltinCarver::Png(c) => c.signature(),
            BuiltinCarver::Gif(c) => c.signature(),
            BuiltinCarver::Bmp(c) => c.signature(),
            BuiltinCarver::Tiff(c) => c.signature(),
            BuiltinCarver::Jpeg(c) => c.signature(),
            BuiltinCarver::MpegPs(c) => c.signature(),
            BuiltinCarver::MpegTs(c) => c.signature(),
            BuiltinCarver::Pdf(c) => c.signature(),
        }
    }

    open spec fn measured(&self, d: Seq<u8>, start: int) -> Measure {
        match self {
            BuiltinCarver::IsoBmff(c) => c.measured(d, start),
            BuiltinCarver::Riff(c) => c.measured(d, start),
            BuiltinCarver::Matroska(c) => c.measured(d, start),
            BuiltinCarver::Asf(c) => c.measured(d, start),
            BuiltinCarver::Png(c) => c.measured(d, start),
            BuiltinCarver::Gif(c) => c.measured(d, start),
            BuiltinCarver::Bmp(c) => c.measured(d, start),
            BuiltinCarver::Tiff(c) => c.measured(d, start),
            BuiltinCarver::Jpeg(c) => c.measured(d, start),
            BuiltinCarver::MpegPs(c) => c.measured(d, start),
            BuiltinCarver::MpegTs(c) => c.measured(d, start),
            BuiltinCarver::Pdf(c) => c.measured(d, start),
        }
    }

    fn spec(&self) -> (s: CarverSpec) {
        match self {
            BuiltinCarver::IsoBmff(c) => c.spec(),
            BuiltinCarver::Riff(c) => c.spec(),
            BuiltinCarver::Matroska(c) => c.spec(),
            BuiltinCarver::Asf(c) => c.spec(),
            BuiltinCarver::Png(c) => c.spec(),
            BuiltinCarver::Gif(c) => c.spec(),
            BuiltinCarver::Bmp(c) => c.spec(),
            BuiltinCarver::Tiff(c) => c.spec(),
            BuiltinCarver::Jpeg(c) => c.spec(),
            BuiltinCarver::MpegPs(c) => c.spec(),
            BuiltinCarver::MpegTs(c) => c.spec(),
            BuiltinCarver::Pdf(c) => c.spec(),
        }
    }

    fn measure<R: ReadAt>(&self, r: &mut R, start: u64) -> (res: io::Result<Option<Measured>>) {
        match self {
            BuiltinCarver::IsoBmff(c) => c.measure(r, start),
            BuiltinCarver::Riff(c) => c.measure(r, start),
            BuiltinCarver::Matroska(c) => c.measure(r, start),
            BuiltinCarver::Asf(c) => c.measure(r, start),
            BuiltinCarver::Png(c) => c.measure(r, start),
            BuiltinCarver::Gif(c) => c.measure(r, start),
            BuiltinCarver::Bmp(c) => c.measure(r, start),
            BuiltinCarver::Tiff(c) => c.measure(r, start),
            BuiltinCarver::Jpeg(c) => c.measure(r, start),
            BuiltinCarver::MpegPs(c) => c.measure(r, start),
            BuiltinCarver::MpegTs(c) => c.measure(r, start),
            BuiltinCarver::Pdf(c) => c.measure(r, start),
        }
    }
}

/// The known formats, ordered roughly by magic strength / structure
/// confidence: exact structure walkers first, sync-run heuristics last.
pub open spec fn builtin_list() -> Seq<BuiltinCarver> {
    seq![
        BuiltinCarver::IsoBmff(IsoBmff),
        BuiltinCarver::Riff(Riff),
        BuiltinCarver::Matroska(Matroska),
        BuiltinCarver::Asf(Asf),
        BuiltinCarver::Png(Png),
        BuiltinCarver::Gif(Gif),
        BuiltinCarver::Bmp(Bmp),
        BuiltinCarver::Tiff(Tiff),
        BuiltinCarver::Jpeg(Jpeg),
        BuiltinCarver::MpegPs(MpegPs),
        BuiltinCarver::MpegTs(MpegTs { timestamps: false }),
        BuiltinCarver::MpegTs(MpegTs { timestamps: true }),
        BuiltinCarver::Pdf(Pdf),
    ]
}

pub fn builtin_carvers() -> (v: Vec<BuiltinCarver>)
    ensures
        v@ == builtin_list(),
{
    let v: Vec<BuiltinCarver> = vec![
        BuiltinCarver::IsoBmff(IsoBmff),
        BuiltinCarver::Riff(Riff),
        BuiltinCarver::Matroska(Matroska),
        BuiltinCarver::Asf(Asf),
        BuiltinCarver::Png(Png),
        BuiltinCarver::Gif(Gif),
        BuiltinCarver::Bmp(Bmp),
        BuiltinCarver::Tiff(Tiff),
        BuiltinCarver::Jpeg(Jpeg),
        BuiltinCarver::MpegPs(MpegPs),
        BuiltinCarver::MpegTs(MpegTs::ts188()),
        BuiltinCarver::MpegTs(MpegTs::m2ts192()),
        BuiltinCarver::Pdf(Pdf),
    ];
    assert(v@ =~= builtin_list());
    v
}

} // verus!
