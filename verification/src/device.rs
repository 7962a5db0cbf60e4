//! Rules for opening sources safely, and the read buffer of the imaging
//! engine.

use crate::text::number::{radix_value, read_decimal};
use crate::text::{chars_of, push_text, split_at_first, split_first, trim, trimmed};
use std::io;
use vstd::arithmetic::power2::pow2;
use vstd::prelude::*;

verus! {

/// `n` is a power of two.
pub open spec fn is_power_of_two(n: int) -> bool {
    exists|k: nat| n == #[trigger] pow2(k)
}

/// Calls `pointer::align_offset` on the start of `buf`. Nothing is claimed
/// of the result: it depends on where the allocator placed the buffer.
#[verifier::external_body]
fn align_offset(buf: &[u8], align: usize) -> (off: usize)
    requires
        is_power_of_two(align as int),
{
    buf.as_ptr().align_offset(align)
}

/// A byte buffer whose data pointer is aligned (needed for O_DIRECT).
/// Implemented with over-allocation so no unsafe code is required.
pub struct AlignedBuf {
    buf: Vec<u8>,
    off: usize,
    len: usize,
}

impl View for AlignedBuf {
    type V = Seq<u8>;

    /// The usable bytes.
    closed spec fn view(&self) -> Seq<u8> {
        self.buf@.subrange(self.off as int, self.off + self.len)
    }
}

impl AlignedBuf {
    /// The usable part lies inside the allocation.
    pub closed spec fn wf(&self) -> bool {
        self.off + self.len <= self.buf@.len()
    }

    /// A zeroed buffer of `len` usable bytes. That their address is a
    /// multiple of `align` is not part of the contract: addresses are
    /// outside the model.
    pub fn new(len: usize, align: usize) -> (b: Self)
        requires
            len + align <= usize::MAX,
            is_power_of_two(align as int),
        ensures
            b.wf(),
            b@ == Seq::new(len as nat, |i: int| 0u8),
    {
        let buf: Vec<u8> = vec![0u8; len + align];
        let skip: usize = align_offset(buf.as_slice(), align);
        let off: usize = if skip <= align {
            skip
        } else {
            0
        };
        let b = AlignedBuf { buf, off, len };
        assert(b@ =~= Seq::new(len as nat, |i: int| 0u8));
        b
    }

    pub fn as_mut_slice(&mut self) -> (s: &mut [u8])
        requires
            old(self).wf(),
        ensures
            s@ == old(self)@,
            final(s)@.len() == s@.len() ==> final(self).wf() && final(self)@ == final(s)@,
    {
        let (head, rest) = self.buf.as_mut_slice().split_at_mut(self.off);
        let (usable, tail) = rest.split_at_mut(self.len);
        proof {
            assert forall|u: Seq<u8>| u.len() == self.len implies #[trigger] (head@ + (u
                + tail@)).subrange(self.off as int, self.off + self.len) =~= u by {}
        }
        usable
    }

    pub fn as_slice(&self) -> (s: &[u8])
        requires
            self.wf(),
        ensures
            s@ == self@,
    {
        let all: &[u8] = self.buf.as_slice();
        assert(all.len() <= usize::MAX);
        vstd::slice::slice_subrange(all, self.off, self.off + self.len)
    }
}

/// Why a source or an output is not used.
#[derive(Debug)]
pub enum DeviceError {
    Open { path: String, source: io::Error },
    OutputOnSource { output: String, source_dev: String },
    OutputIsSource(String),
    WouldClobber { path: String },
    BlockUnsupported(String),
}

impl DeviceError {
    /// The message, up to where that of the system follows.
    pub open spec fn spec_message(&self) -> Seq<char> {
        match self {
            DeviceError::Open { path, .. } => "cannot open "@ + path@ + ": "@,
            DeviceError::OutputOnSource { output, source_dev } => "refusing to write "@ + output@
                + " onto the source device "@ + source_dev@,
            DeviceError::OutputIsSource(output) => "output "@ + output@
                + " is the same file as the source"@,
            DeviceError::WouldClobber { path } => path@
                + " exists but its mapfile does not; pass --force to overwrite, or supply the original mapfile to resume"@,
            DeviceError::BlockUnsupported(path) => "block devices are not supported on this platform: "@
                + path@,
        }
    }

    /// The message; for [`DeviceError::Open`] the caller appends what the
    /// system reports.
    pub fn message(&self) -> (s: String)
        ensures
            s@ == self.spec_message(),
    {
        let mut s: String = String::new();
        match self {
            DeviceError::Open { path, .. } => {
                push_text(&mut s, "cannot open ");
                push_text(&mut s, path.as_str());
                push_text(&mut s, ": ");
            },
            DeviceError::OutputOnSource { output, source_dev } => {
                push_text(&mut s, "refusing to write ");
                push_text(&mut s, output.as_str());
                push_text(&mut s, " onto the source device ");
                push_text(&mut s, source_dev.as_str());
            },
            DeviceError::OutputIsSource(output) => {
                push_text(&mut s, "output ");
                push_text(&mut s, output.as_str());
                push_text(&mut s, " is the same file as the source");
            },
            DeviceError::WouldClobber { path } => {
                push_text(&mut s, path.as_str());
                push_text(
                    &mut s,
                    " exists but its mapfile does not; pass --force to overwrite, or supply the original mapfile to resume",
                );
            },
            DeviceError::BlockUnsupported(path) => {
                push_text(&mut s, "block devices are not supported on this platform: ");
                push_text(&mut s, path.as_str());
            },
        }
        assert(s@ =~= self.spec_message());
        s
    }
}

/// What tells a file from others: the device that it lies on, its number
/// there, and, for a device node, the device that it stands for.
#[derive(Clone, Debug)]
pub struct FileId {
    pub dev: u64,
    pub ino: u64,
    pub rdev: u64,
    pub is_block: bool,
    /// The devices that hold what is written to the file: those that `dev`
    /// (for a block device node, `rdev`) is a part of or built on, such as
    /// the whole disk of a partition.
    pub under: Vec<u64>,
}

pub fn same_file(a: &FileId, b: &FileId) -> (r: bool)
    ensures
        r == (a.dev == b.dev && a.ino == b.ino),
{
    a.dev == b.dev && a.ino == b.ino
}

/// The output lies on a filesystem backed by the source block device or by a
/// part of it, or is another node of the same device or of a part of it.
pub open spec fn lies_on_source(src: FileId, out: FileId) -> bool {
    src.is_block && (out.dev == src.rdev || (out.is_block && out.rdev == src.rdev)
        || out.under@.contains(src.rdev))
}

/// Whether a device is among those that hold what is written to a file.
fn is_under(under: &Vec<u64>, dev: u64) -> (r: bool)
    ensures
        r == under@.contains(dev),
{
    let n: usize = under.len();
    let mut i: usize = 0;
    while i < n
        invariant
            i <= n,
            n == under@.len(),
            forall|j: int| 0 <= j < i ==> #[trigger] under@[j] != dev,
        decreases n - i,
    {
        if under[i] == dev {
            return true;
        }
        i = i + 1;
    }
    false
}

pub fn output_on_source_device(src: &FileId, out: &FileId) -> (r: bool)
    ensures
        r == lies_on_source(*src, *out),
{
    if src.is_block {
        if out.dev == src.rdev {
            return true;
        }
        // Also catch writing to another node of the same device.
        if out.is_block && out.rdev == src.rdev {
            return true;
        }
        // And a filesystem on a partition of it, or on volumes built on it.
        if is_under(&out.under, src.rdev) {
            return true;
        }
    }
    false
}

/// Refuse output locations that would write onto the dying source: the
/// source file itself, the source device node, or any filesystem that lives
/// on the source block device. `out` is the output file if it exists, else
/// the directory where it would be created; a file that cannot be looked at
/// is `None`.
pub fn check_output_safety(
    source: &str,
    src: Option<FileId>,
    output: &str,
    out: Option<FileId>,
) -> (r: Result<(), DeviceError>)
    ensures
        match (src, out) {
            (Some(a), Some(b)) => if a.dev == b.dev && a.ino == b.ino {
                r matches Err(DeviceError::OutputIsSource(path)) && path@ == output@
            } else if lies_on_source(a, b) {
                r matches Err(DeviceError::OutputOnSource { output: o, source_dev: d }) && o@
                    == output@ && d@ == source@
            } else {
                r is Ok
            },
            _ => r is Ok,
        },
{
    let a: FileId = match src {
        Some(x) => x,
        None => {
            return Ok(());
        },
    };
    let b: FileId = match out {
        Some(x) => x,
        None => {
            return Ok(());
        },
    };
    if same_file(&a, &b) {
        return Err(DeviceError::OutputIsSource(output.to_owned()));
    }
    if output_on_source_device(&a, &b) {
        return Err(
            DeviceError::OutputOnSource { output: output.to_owned(), source_dev: source.to_owned() },
        );
    }
    Ok(())
}

/// Enforce the resume-or-force rule for an existing image file.
pub fn check_clobber(image: &str, image_exists: bool, mapfile_exists: bool, force: bool) -> (r:
    Result<(), DeviceError>)
    ensures
        r is Err <==> image_exists && !mapfile_exists && !force,
        r matches Err(e) ==> e matches DeviceError::WouldClobber { path } && path@ == image@,
{
    if image_exists && !mapfile_exists && !force {
        return Err(DeviceError::WouldClobber { path: image.to_owned() });
    }
    Ok(())
}

/// The sector size that a system file with a decimal number tells.
pub open spec fn told_sector_size(text: Seq<char>) -> Option<int> {
    match radix_value(trimmed(text), 10) {
        Ok(v) if v <= u32::MAX => Some(v),
        _ => None,
    }
}

pub fn parse_sector_size(text: &str) -> (r: Option<u32>)
    ensures
        match r {
            Some(n) => told_sector_size(text@) == Some(n as int),
            None => told_sector_size(text@) is None,
        },
{
    let chars: Vec<char> = chars_of(text);
    match read_decimal(&trim(&chars)) {
        Ok(v) => if v <= u32::MAX as u64 {
            Some(v as u32)
        } else {
            None
        },
        Err(_) => None,
    }
}

/// The major and minor number of a device that a system file tells, as two
/// decimal numbers with a colon between them.
pub open spec fn told_device(text: Seq<char>) -> Option<(int, int)> {
    match split_first(trimmed(text), ':') {
        Some((a, b)) => match (radix_value(a, 10), radix_value(b, 10)) {
            (Ok(major), Ok(minor)) if major <= u32::MAX && minor <= u32::MAX => Some(
                (major, minor),
            ),
            _ => None,
        },
        None => None,
    }
}

pub fn parse_device(text: &str) -> (r: Option<(u32, u32)>)
    ensures
        match r {
            Some((major, minor)) => told_device(text@) == Some((major as int, minor as int)),
            None => told_device(text@) is None,
        },
{
    let chars: Vec<char> = chars_of(text);
    match split_at_first(&trim(&chars), ':') {
        Some((a, b)) => match (read_decimal(&a), read_decimal(&b)) {
            (Ok(major), Ok(minor)) => if major <= u32::MAX as u64 && minor <= u32::MAX as u64 {
                Some((major as u32, minor as u32))
            } else {
                None
            },
            _ => None,
        },
        None => None,
    }
}

/// The sector size of a source: the one asked for, else the one that the
/// system reports for the device, else 512.
pub fn choose_sector_size(asked: Option<u32>, reported: Option<u32>) -> (n: u32)
    ensures
        n == match (asked, reported) {
            (Some(a), _) => a,
            (None, Some(b)) => b,
            (None, None) => 512,
        },
{
    match asked {
        Some(a) => a,
        None => match reported {
            Some(b) => b,
            None => 512,
        },
    }
}

} // verus!
