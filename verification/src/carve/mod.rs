//! Signature scan over an image (or any [`carver::ReadAt`]), extraction,
//! and report generation. With a rescue map, unrescued regions are skipped
//! and files overlapping bad areas get flagged as damaged.

pub mod bytes;
pub mod carver;
pub mod formats;
pub mod laws;
pub mod limits;
pub mod recovery;
pub mod report;
pub mod search;

use crate::map::{RescueMap, SectorStatus};
use crate::text::number::{hex_padded, write_hex};
use crate::text::{push_chars, push_text};
use bytes::{is_at, room, smaller, stands_at};
use carver::{
    builtin_carvers, builtin_list, BuiltinCarver, Carver, CarverSpec, Measure, Measured, ReadAt,
    Signature, MAX_INPUT,
};
use search::{is_piece, lemma_in_piece, piece_at};
use std::io;
use vstd::prelude::*;

verus! {

/// How much of the input is scanned between two reports of progress.
pub const CHUNK: u64 = 0x40_0000;

/// How far a signature reaches from the start of a file at most.
pub const OVERLAP: u64 = 16;

/// How much of a file is copied at a time.
pub const COPY_BLOCK: u64 = 0x10_0000;

#[derive(Clone, Debug)]
pub struct CarveOptions {
    /// Only test signatures at offsets aligned to this (512 matches
    /// filesystem allocation; 1 scans every byte).
    pub align: u64,
    /// Restrict to these format names; None = all.
    pub formats: Option<Vec<String>>,
}

impl Default for CarveOptions {
    fn default() -> (o: Self)
        ensures
            o.align == 512,
            o.formats is None,
    {
        CarveOptions { align: 512, formats: None }
    }
}

/// Why a scan ended before its end.
#[derive(Debug)]
pub enum CarveError {
    /// No known format has any of the names asked for.
    NoCarvers,
    /// Reading the input failed.
    Io(io::Error),
}

impl CarveError {
    /// The message; for [`CarveError::Io`] it is what the system reports.
    pub fn message(&self) -> (s: Option<&'static str>)
        ensures
            s == match self {
                CarveError::NoCarvers => Some("no carvers selected (check --formats)"),
                CarveError::Io(_) => None,
            },
    {
        match self {
            CarveError::NoCarvers => Some("no carvers selected (check --formats)"),
            CarveError::Io(_) => None,
        }
    }
}

/// A file that was found.
#[derive(Clone, Debug)]
pub struct CarvedFile {
    pub offset: u64,
    pub len: u64,
    pub format: &'static str,
    /// The name of the file to write.
    pub name: String,
    /// Overlaps regions the imaging pass could not rescue.
    pub damaged: bool,
    /// True when the file's declared length ran past the end of the input.
    pub truncated: bool,
}

/// The mathematical value of a [`CarvedFile`].
#[verifier::ext_equal]
pub struct Found {
    pub offset: int,
    pub len: int,
    pub format: Seq<char>,
    pub name: Seq<char>,
    pub damaged: bool,
    pub truncated: bool,
}

impl View for CarvedFile {
    type V = Found;

    open spec fn view(&self) -> Found {
        Found {
            offset: self.offset as int,
            len: self.len as int,
            format: self.format@,
            name: self.name@,
            damaged: self.damaged,
            truncated: self.truncated,
        }
    }
}

/// The bytes of a map, if there is one.
pub open spec fn map_view(map: Option<&RescueMap>) -> Option<Seq<SectorStatus>> {
    match map {
        Some(m) => Some(m@),
        None => None,
    }
}

/// A signature of a format stands where a file at `off` would have it.
pub open spec fn has_magic(s: Signature, d: Seq<u8>, off: int) -> bool {
    exists|k: int|
        0 <= k < s.magics.len() && #[trigger] stands_at(d, off + s.magic_offset, s.magics[k])
}

/// The measure of the file of one format at `off`.
pub open spec fn hit(c: BuiltinCarver, d: Seq<u8>, off: int) -> Measure {
    if has_magic(c.signature(), d, off) {
        c.measured(d, off)
    } else {
        None
    }
}

/// The first of the formats from the `i`-th on that has a file at `off`.
pub open spec fn first_hit(cs: Seq<BuiltinCarver>, d: Seq<u8>, off: int, i: int) -> Option<int>
    decreases cs.len() - i,
{
    if i >= cs.len() {
        None
    } else if hit(cs[i], d, off) is Some {
        Some(i)
    } else {
        first_hit(cs, d, off, i + 1)
    }
}

/// Bytes of `[off, off + len)` were not rescued.
pub open spec fn is_damaged(map: Option<Seq<SectorStatus>>, off: int, len: int) -> bool {
    match map {
        Some(m) => exists|i: int|
            off <= i < off + len && i < m.len() && #[trigger] m[i] != SectorStatus::Rescued,
        None => false,
    }
}

/// The byte at `off` was not rescued.
pub open spec fn is_skipped(map: Option<Seq<SectorStatus>>, off: int) -> bool {
    match map {
        Some(m) => off >= m.len() || m[off] != SectorStatus::Rescued,
        None => false,
    }
}

/// The file at `off` that a format measured: cut off at the end of the
/// input, and named by its offset.
pub open spec fn file_at(
    c: BuiltinCarver,
    d: Seq<u8>,
    map: Option<Seq<SectorStatus>>,
    off: int,
) -> Found {
    let (len, extension) = hit(c, d, off)->0;
    let kept = smaller(len, d.len() - off);
    Found {
        offset: off,
        len: kept,
        format: c.signature().name,
        name: seq!['f'] + hex_padded(off, 10) + seq!['.'] + extension,
        damaged: is_damaged(map, off, kept),
        truncated: off + len > d.len(),
    }
}

/// The smallest multiple of `align` from `v` on.
pub open spec fn multiple_from(v: int, align: int) -> int {
    ((v + align - 1) / align) * align
}

/// Where the scan goes on behind a file that ends at `end`.
pub open spec fn offset_behind(off: int, end: int, align: int) -> int {
    if multiple_from(end, align) > off + align {
        multiple_from(end, align)
    } else {
        off + align
    }
}

/// The files that a scan of `d` finds from `off` on: at each multiple of
/// `align` that is rescued, the first format that measures a file there has
/// it, and the scan goes on behind the file.
pub open spec fn files_from(
    cs: Seq<BuiltinCarver>,
    d: Seq<u8>,
    map: Option<Seq<SectorStatus>>,
    align: int,
    off: int,
) -> Seq<Found>
    decreases room(off, d.len() as int),
{
    if off >= d.len() || align <= 0 {
        Seq::empty()
    } else if is_skipped(map, off) {
        files_from(cs, d, map, align, off + align)
    } else {
        match first_hit(cs, d, off, 0) {
            Some(i) => {
                let f = file_at(cs[i], d, map, off);
                seq![f] + files_from(
                    cs,
                    d,
                    map,
                    align,
                    offset_behind(off, off + f.len, align),
                )
            },
            None => files_from(cs, d, map, align, off + align),
        }
    }
}

/// The format names asked for.
pub open spec fn asked(formats: Option<Vec<String>>) -> Option<Seq<Seq<char>>> {
    match formats {
        Some(names) => Some(Seq::new(names@.len(), |i: int| names@[i]@)),
        None => None,
    }
}

/// The formats of `cs` that were asked for, in their order.
pub open spec fn selected(
    cs: Seq<BuiltinCarver>,
    names: Option<Seq<Seq<char>>>,
) -> Seq<BuiltinCarver>
    decreases cs.len(),
{
    if cs.len() == 0 {
        cs
    } else {
        let before = selected(cs.drop_last(), names);
        match names {
            Some(n) if !n.contains(cs.last().signature().name) => before,
            _ => before.push(cs.last()),
        }
    }
}

/// The alignment that is used: at least 1.
pub open spec fn align_of(opts: CarveOptions) -> int {
    if opts.align > 1 {
        opts.align as int
    } else {
        1
    }
}

/// The files that are found in `d`.
pub open spec fn found_in(
    d: Seq<u8>,
    map: Option<Seq<SectorStatus>>,
    opts: CarveOptions,
) -> Seq<Found> {
    files_from(selected(builtin_list(), asked(opts.formats)), d, map, align_of(opts), 0)
}

/// What a step of a scan leads to.
#[derive(Debug)]
pub enum CarveEvent {
    /// A file was found.
    File(CarvedFile),
    /// The input was scanned up to `scanned`.
    Progress { scanned: u64, found: u64 },
    /// The input was scanned to its end.
    Done,
}

/// A scan of an input, step by step: whoever runs it copies each file out
/// as it is found.
pub struct CarveScan {
    carvers: Vec<BuiltinCarver>,
    align: u64,
    total: u64,
    base: u64,
    off: u64,
    found: u64,
    /// The bytes from `base` on, if they were read.
    buf: Option<Vec<u8>>,
}

/// Every signature lies in the first bytes of a file.
proof fn lemma_magic_fits(c: BuiltinCarver, k: int)
    requires
        0 <= k < c.signature().magics.len(),
    ensures
        0 <= c.signature().magic_offset,
        c.signature().magic_offset + c.signature().magics[k].len() <= OVERLAP,
        c.signature().magics[k].len() > 0,
{
}

/// Whether a format has a signature at `off`, which is `rel` bytes into the
/// piece `buf`.
fn match_magic(
    c: &BuiltinCarver,
    buf: &[u8],
    rel: u64,
    Ghost(d): Ghost<Seq<u8>>,
    Ghost(base): Ghost<int>,
) -> (r: bool)
    requires
        is_piece(d, base, buf@),
        rel < CHUNK,
        base + rel <= d.len(),
        buf@.len() == smaller(CHUNK + OVERLAP, d.len() - base),
    ensures
        r == has_magic(c.signature(), d, base + rel),
{
    let s: CarverSpec = c.spec();
    let ghost sig = c.signature();
    let n: usize = s.magics.len();
    let mut k: usize = 0;
    while k < n
        invariant
            k <= n,
            n == s.magics@.len(),
            sig == c.signature(),
            s@ == sig,
            is_piece(d, base, buf@),
            rel < CHUNK,
            base + rel <= d.len(),
            buf@.len() == smaller(CHUNK + OVERLAP, d.len() - base),
            forall|j: int|
                0 <= j < k ==> !#[trigger] stands_at(
                    d,
                    base + rel + sig.magic_offset,
                    sig.magics[j],
                ),
        decreases n - k,
    {
        let magic: &[u8] = s.magics[k];
        proof {
            assert(sig.magics[k as int] == magic@);
            lemma_magic_fits(*c, k as int);
            lemma_in_piece(d, base, buf@, magic@, rel + sig.magic_offset);
        }
        if is_at(buf, (rel + s.magic_offset) as usize, magic) {
            assert(stands_at(d, base + rel + sig.magic_offset, sig.magics[k as int]));
            return true;
        }
        k = k + 1;
    }
    false
}

fn file_name(off: u64, extension: &str) -> (s: String)
    ensures
        s@ == seq!['f'] + hex_padded(off as int, 10) + seq!['.'] + extension@,
{
    let mut s: String = String::new();
    s.push('f');
    push_chars(&mut s, &write_hex(off, 10));
    s.push('.');
    push_text(&mut s, extension);
    assert(s@ =~= seq!['f'] + hex_padded(off as int, 10) + seq!['.'] + extension@);
    s
}

/// Alignments beyond the input make no difference: only its start is looked
/// at.
proof fn lemma_wide_alignment(
    cs: Seq<BuiltinCarver>,
    d: Seq<u8>,
    map: Option<Seq<SectorStatus>>,
    a: int,
    b: int,
)
    requires
        a >= d.len(),
        b >= d.len(),
        a > 0,
        b > 0,
    ensures
        files_from(cs, d, map, a, 0) == files_from(cs, d, map, b, 0),
{
    if d.len() > 0 {
        assert(files_from(cs, d, map, a, a) =~= Seq::empty());
        assert(files_from(cs, d, map, b, b) =~= Seq::empty());
        if let Some(i) = first_hit(cs, d, 0, 0) {
            let f = file_at(cs[i], d, map, 0);
            assert(files_from(cs, d, map, a, offset_behind(0, f.len, a)) =~= Seq::empty());
            assert(files_from(cs, d, map, b, offset_behind(0, f.len, b)) =~= Seq::empty());
        }
    }
}

/// The smallest multiple of `align` from `v` on.
fn next_multiple(v: u64, align: u64) -> (r: u64)
    requires
        align > 0,
        v + align <= u64::MAX,
    ensures
        r == multiple_from(v as int, align as int),
{
    proof {
        let q = (v + align - 1) / (align as int);
        vstd::arithmetic::div_mod::lemma_fundamental_div_mod(v + align - 1, align as int);
        vstd::arithmetic::div_mod::lemma_mod_bound(v + align - 1, align as int);
        assert(align as int * q == q * align as int) by (nonlinear_arith);
        assert(q >= 0) by (nonlinear_arith)
            requires
                q == (v + align - 1) / (align as int),
                v + align - 1 >= 0,
                align > 0,
        ;
    }
    (v + (align - 1)) / align * align
}

impl CarveScan {
    /// The scan of an input of `d`.
    pub closed spec fn wf(&self, d: Seq<u8>) -> bool {
        &&& self.total == d.len()
        &&& self.total <= MAX_INPUT
        &&& self.align > 0
        &&& self.total + self.align <= u64::MAX
        &&& smaller(self.base as int, self.total as int) <= self.off
        &&& self.off <= self.total + self.align
        &&& self.base <= self.total + CHUNK
        &&& self.found <= self.off
        &&& self.buf matches Some(b) ==> is_piece(d, self.base as int, b@) && b@.len() == smaller(
            CHUNK + OVERLAP,
            d.len() - self.base,
        )
    }

    /// The files that are still to be found.
    pub closed spec fn remaining(
        &self,
        d: Seq<u8>,
        map: Option<Seq<SectorStatus>>,
    ) -> Seq<Found> {
        files_from(self.carvers@, d, map, self.align as int, self.off as int)
    }

    /// How many files were found so far.
    pub closed spec fn count(&self) -> int {
        self.found as int
    }

    /// How much of the input is not read yet.
    pub closed spec fn unread(&self) -> nat {
        room(self.base as int, self.total as int)
    }

    /// How much of the input is not scanned yet.
    pub closed spec fn unscanned(&self) -> nat {
        room(self.off as int, self.total + self.align)
    }

    /// Start a scan of an input of `total` bytes.
    pub fn new(total: u64, opts: &CarveOptions) -> (r: Result<CarveScan, CarveError>)
        requires
            total <= MAX_INPUT,
        ensures
            match r {
                Ok(s) => {
                    &&& selected(builtin_list(), asked(opts.formats)).len() > 0
                    &&& s.count() == 0
                    &&& s.unread() == total
                    &&& forall|d: Seq<u8>, map: Option<Seq<SectorStatus>>|
                        d.len() == total ==> s.wf(d) && #[trigger] s.remaining(d, map) == found_in(
                            d,
                            map,
                            *opts,
                        )
                },
                Err(e) => e is NoCarvers && selected(
                    builtin_list(),
                    asked(opts.formats),
                ).len() == 0,
            },
    {
        let carvers: Vec<BuiltinCarver> = select(&opts.formats);
        if carvers.len() == 0 {
            return Err(CarveError::NoCarvers);
        }
        // With an alignment beyond the input only its start is looked at.
        let most: u64 = if total > 1 {
            total
        } else {
            1
        };
        let align: u64 = if opts.align > most {
            most
        } else if opts.align > 1 {
            opts.align
        } else {
            1
        };
        proof {
            assert forall|d: Seq<u8>, map: Option<Seq<SectorStatus>>|
                d.len() == total implies #[trigger] files_from(
                carvers@,
                d,
                map,
                align as int,
                0,
            ) == found_in(d, map, *opts) by {
                if align != align_of(*opts) {
                    lemma_wide_alignment(carvers@, d, map, align as int, align_of(*opts));
                }
            }
        }
        Ok(CarveScan { carvers, align, total, base: 0, off: 0, found: 0, buf: None })
    }

    /// The first format that has a file at the current offset, and the
    /// measure of the file.
    fn first_match<R: ReadAt>(&self, reader: &mut R, buf: &Vec<u8>) -> (r: io::Result<
        Option<(usize, Measured)>,
    >)
        requires
            self.wf(old(reader).contents()),
            self.base <= self.off < self.base + CHUNK,
            self.off < self.total,
            is_piece(old(reader).contents(), self.base as int, buf@),
            buf@.len() == smaller(CHUNK + OVERLAP, old(reader).contents().len() - self.base),
        ensures
            final(reader).contents() == old(reader).contents(),
            old(reader).reliable() ==> final(reader).reliable() && r is Ok,
            match r {
                Ok(Some((i, m))) => first_hit(
                    self.carvers@,
                    old(reader).contents(),
                    self.off as int,
                    0,
                ) == Some(i as int) && i < self.carvers@.len() && hit(
                    self.carvers@[i as int],
                    old(reader).contents(),
                    self.off as int,
                ) == Some((m.len as int, m.extension@)),
                Ok(None) => first_hit(
                    self.carvers@,
                    old(reader).contents(),
                    self.off as int,
                    0,
                ) is None,
                Err(_) => true,
            },
    {
        let ghost d = reader.contents();
        let off: u64 = self.off;
        let rel: u64 = off - self.base;
        let n: usize = self.carvers.len();
        let mut i: usize = 0;
        while i < n
            invariant
                i <= n,
                n == self.carvers@.len(),
                d == old(reader).contents(),
                reader.contents() == d,
                old(reader).reliable() ==> reader.reliable(),
                self.wf(d),
                off == self.off,
                rel == off - self.base,
                rel < CHUNK,
                off < self.total,
                is_piece(d, self.base as int, buf@),
                buf@.len() == smaller(CHUNK + OVERLAP, d.len() - self.base),
                first_hit(self.carvers@, d, off as int, 0) == first_hit(
                    self.carvers@,
                    d,
                    off as int,
                    i as int,
                ),
            decreases n - i,
        {
            let c: BuiltinCarver = self.carvers[i];
            if match_magic(&c, buf.as_slice(), rel, Ghost(d), Ghost(self.base as int)) {
                match c.measure(reader, off) {
                    Ok(Some(m)) => {
                        return Ok(Some((i, m)));
                    },
                    Ok(None) => {},
                    Err(e) => {
                        return Err(e);
                    },
                }
            }
            i = i + 1;
        }
        Ok(None)
    }

    /// Scan on up to the next file, or to the end of the current chunk.
    pub fn next<R: ReadAt>(&mut self, reader: &mut R, map: Option<&RescueMap>) -> (r: io::Result<
        CarveEvent,
    >)
        requires
            old(self).wf(old(reader).contents()),
            map matches Some(m) ==> m.wf(),
        ensures
            final(reader).contents() == old(reader).contents(),
            old(reader).reliable() ==> final(reader).reliable() && r is Ok,
            final(self).wf(old(reader).contents()),
            match r {
                Ok(CarveEvent::File(f)) => {
                    &&& old(self).remaining(old(reader).contents(), map_view(map)) == seq![f@]
                        + final(self).remaining(old(reader).contents(), map_view(map))
                    &&& final(self).count() == old(self).count() + 1
                    &&& final(self).unread() == old(self).unread()
                    &&& final(self).unscanned() < old(self).unscanned()
                },
                Ok(CarveEvent::Progress { scanned, found }) => {
                    &&& final(self).remaining(old(reader).contents(), map_view(map)) == old(
                        self,
                    ).remaining(old(reader).contents(), map_view(map))
                    &&& final(self).count() == old(self).count()
                    &&& found == old(self).count()
                    &&& scanned == old(reader).contents().len() - final(self).unread()
                    &&& final(self).unread() == room(
                        CHUNK as int,
                        old(self).unread() as int,
                    )
                    &&& old(self).unread() > 0
                },
                Ok(CarveEvent::Done) => {
                    &&& old(self).unread() == 0
                    &&& old(self).remaining(old(reader).contents(), map_view(map))
                        =~= Seq::empty()
                    &&& *final(self) == *old(self)
                },
                Err(_) => final(self).remaining(old(reader).contents(), map_view(map)) == old(
                    self,
                ).remaining(old(reader).contents(), map_view(map)),
            },
    {
        let ghost d = reader.contents();
        let ghost mv = map_view(map);
        let total: u64 = self.total;
        let align: u64 = self.align;
        if self.base >= total {
            return Ok(CarveEvent::Done);
        }
        let loaded: Option<Vec<u8>> = self.buf.take();
        let buf: Vec<u8> = match loaded {
            Some(b) => b,
            None => {
                let left: u64 = total - self.base;
                let want: u64 = if left < CHUNK + OVERLAP {
                    left
                } else {
                    CHUNK + OVERLAP
                };
                match piece_at(reader, self.base, want as usize) {
                    Ok(b) => b,
                    Err(e) => {
                        return Err(e);
                    },
                }
            },
        };
        let stop: u64 = if total - self.base < CHUNK {
            total
        } else {
            self.base + CHUNK
        };
        while self.off < stop
            invariant
                d == old(reader).contents(),
                reader.contents() == d,
                old(reader).reliable() ==> reader.reliable(),
                mv == map_view(map),
                map matches Some(m) ==> m.wf(),
                self.wf(d),
                self.buf is None,
                total == self.total,
                align == self.align,
                self.carvers == old(self).carvers,
                self.align == old(self).align,
                self.total == old(self).total,
                self.base == old(self).base,
                self.found == old(self).found,
                self.off >= old(self).off,
                self.base < total,
                stop == smaller(self.base + CHUNK, total as int),
                is_piece(d, self.base as int, buf@),
                buf@.len() == smaller(CHUNK + OVERLAP, d.len() - self.base),
                self.remaining(d, mv) == old(self).remaining(d, mv),
            decreases room(self.off as int, stop as int),
        {
            let off: u64 = self.off;
            let skip_here: bool = match map {
                Some(m) => match m.status_at(off) {
                    Some(st) => st != SectorStatus::Rescued,
                    None => true,
                },
                None => false,
            };
            if skip_here {
                self.off = off + align;
                continue ;
            }
            match self.first_match(reader, &buf) {
                Ok(Some((i, m))) => {
                    let c: BuiltinCarver = self.carvers[i];
                    let truncated: bool = m.len > total - off;
                    let len: u64 = if truncated {
                        total - off
                    } else {
                        m.len
                    };
                    let damaged: bool = match map {
                        Some(x) => x.overlaps_non_rescued(off, len),
                        None => false,
                    };
                    let file = CarvedFile {
                        offset: off,
                        len,
                        format: c.spec().name,
                        name: file_name(off, m.extension),
                        damaged,
                        truncated,
                    };
                    let behind: u64 = next_multiple(off + len, align);
                    proof {
                        lemma_multiple_bound(off + len, align as int);
                        assert(file@ == file_at(c, d, mv, off as int));
                    }
                    self.off = if behind > off + align {
                        behind
                    } else {
                        off + align
                    };
                    self.found = self.found + 1;
                    self.buf = Some(buf);
                    return Ok(CarveEvent::File(file));
                },
                Ok(None) => {
                    self.off = off + align;
                },
                Err(e) => {
                    self.buf = Some(buf);
                    return Err(e);
                },
            }
        }
        self.base = self.base + CHUNK;
        Ok(CarveEvent::Progress { scanned: stop, found: self.found })
    }
}

/// A multiple lies at most one alignment ahead.
pub proof fn lemma_multiple_bound(v: int, align: int)
    requires
        align > 0,
        v >= 0,
    ensures
        v <= multiple_from(v, align) < v + align,
{
    let q = (v + align - 1) / align;
    vstd::arithmetic::div_mod::lemma_fundamental_div_mod(v + align - 1, align);
    vstd::arithmetic::div_mod::lemma_mod_bound(v + align - 1, align);
    assert(align * q == q * align) by (nonlinear_arith);
}

/// Scan a whole input. `progress(scanned_bytes, files_found)` is called
/// once per chunk.
pub fn carve_scan<R: ReadAt, P: FnMut(u64, usize)>(
    reader: &mut R,
    map: Option<&RescueMap>,
    opts: &CarveOptions,
    progress: &mut P,
) -> (r: Result<Vec<CarvedFile>, CarveError>)
    requires
        old(reader).contents().len() <= MAX_INPUT,
        map matches Some(m) ==> m.wf(),
        forall|scanned: u64, found: usize| call_requires(*old(progress), (scanned, found)),
    ensures
        final(reader).contents() == old(reader).contents(),
        match r {
            Ok(files) => file_views(files@) == found_in(
                old(reader).contents(),
                map_view(map),
                *opts,
            ),
            Err(CarveError::NoCarvers) => true,
            Err(CarveError::Io(_)) => !old(reader).reliable(),
        },
        r matches Err(CarveError::NoCarvers) <==> selected(
            builtin_list(),
            asked(opts.formats),
        ).len() == 0,
{
    let ghost d = reader.contents();
    let ghost mv = map_view(map);
    let mut scan: CarveScan = match CarveScan::new(reader.total_len(), opts) {
        Ok(s) => s,
        Err(e) => {
            return Err(e);
        },
    };
    let mut files: Vec<CarvedFile> = Vec::new();
    assert(scan.remaining(d, mv) == found_in(d, mv, *opts));
    assert(file_views(files@) + scan.remaining(d, mv) =~= found_in(d, mv, *opts));
    loop
        invariant
            d == old(reader).contents(),
            reader.contents() == d,
            old(reader).reliable() ==> reader.reliable(),
            mv == map_view(map),
            map matches Some(m) ==> m.wf(),
            scan.wf(d),
            selected(builtin_list(), asked(opts.formats)).len() > 0,
            forall|scanned: u64, found: usize| call_requires(*progress, (scanned, found)),
            file_views(files@) + scan.remaining(d, mv) == found_in(d, mv, *opts),
        decreases scan.unread(), scan.unscanned(),
    {
        let ghost before = scan.remaining(d, mv);
        let ghost done = file_views(files@);
        match scan.next(reader, map) {
            Ok(CarveEvent::File(f)) => {
                proof {
                    assert((done + seq![f@]) + scan.remaining(d, mv) =~= done + before);
                    assert(done + seq![f@] =~= done.push(f@));
                }
                files.push(f);
                assert(file_views(files@) =~= done.push(f@));
            },
            Ok(CarveEvent::Progress { scanned, .. }) => {
                progress(scanned, files.len());
            },
            Ok(CarveEvent::Done) => {
                assert(done + before =~= done);
                return Ok(files);
            },
            Err(e) => {
                return Err(CarveError::Io(e));
            },
        }
    }
}

/// The mathematical values of some files.
pub open spec fn file_views(v: Seq<CarvedFile>) -> Seq<Found> {
    Seq::new(v.len(), |i: int| v[i]@)
}

/// The known formats that were asked for.
fn select(formats: &Option<Vec<String>>) -> (r: Vec<BuiltinCarver>)
    ensures
        r@ == selected(builtin_list(), asked(*formats)),
{
    let all: Vec<BuiltinCarver> = builtin_carvers();
    let ghost names = asked(*formats);
    let n: usize = all.len();
    let mut r: Vec<BuiltinCarver> = Vec::new();
    let mut i: usize = 0;
    assert(all@.take(0) =~= Seq::empty());
    assert(r@ =~= Seq::empty());
    while i < n
        invariant
            i <= n,
            n == all@.len(),
            names == asked(*formats),
            r@ == selected(all@.take(i as int), names),
        decreases n - i,
    {
        let c: BuiltinCarver = all[i];
        proof {
            assert(all@.take(i + 1).drop_last() =~= all@.take(i as int));
        }
        let wanted: bool = match formats {
            Some(list) => is_listed(list, c.spec().name),
            None => true,
        };
        if wanted {
            r.push(c);
        }
        i = i + 1;
    }
    assert(all@.take(n as int) =~= all@);
    r
}

/// Whether a name is in a list.
fn is_listed(list: &Vec<String>, name: &str) -> (r: bool)
    ensures
        r == Seq::new(list@.len(), |i: int| list@[i]@).contains(name@),
{
    let ghost names = Seq::new(list@.len(), |i: int| list@[i]@);
    let wanted: String = name.to_owned();
    let n: usize = list.len();
    let mut i: usize = 0;
    while i < n
        invariant
            i <= n,
            n == list@.len(),
            names == Seq::new(list@.len(), |i: int| list@[i]@),
            wanted@ == name@,
            forall|j: int| 0 <= j < i ==> #[trigger] names[j] != name@,
        decreases n - i,
    {
        if list[i] == wanted {
            assert(names[i as int] == name@);
            return true;
        }
        i = i + 1;
    }
    false
}

/// The bytes of a file of `len` bytes at `offset` that are copied next,
/// after `copied` bytes.
pub open spec fn block_of(d: Seq<u8>, offset: int, len: int, copied: int) -> Seq<u8> {
    d.subrange(offset + copied, offset + copied + smaller(len - copied, COPY_BLOCK as int))
}

/// Read the next block of a file that is copied out.
pub fn next_block<R: ReadAt>(reader: &mut R, offset: u64, len: u64, copied: u64) -> (r: io::Result<
    Vec<u8>,
>)
    requires
        offset + len <= old(reader).contents().len() <= u64::MAX,
        copied <= len,
    ensures
        final(reader).contents() == old(reader).contents(),
        old(reader).reliable() ==> final(reader).reliable() && r is Ok,
        r matches Ok(b) ==> b@ == block_of(
            old(reader).contents(),
            offset as int,
            len as int,
            copied as int,
        ),
{
    let left: u64 = len - copied;
    let want: u64 = if left < COPY_BLOCK {
        left
    } else {
        COPY_BLOCK
    };
    match piece_at(reader, offset + copied, want as usize) {
        Ok(b) => {
            assert(b@ =~= block_of(
                reader.contents(),
                offset as int,
                len as int,
                copied as int,
            ));
            Ok(b)
        },
        Err(e) => Err(e),
    }
}

/// What is copied of a file when block after block is, until there is none.
pub open spec fn copied_out(d: Seq<u8>, offset: int, len: int, copied: int) -> Seq<u8>
    decreases len - copied,
{
    if copied >= len {
        Seq::empty()
    } else {
        block_of(d, offset, len, copied) + copied_out(
            d,
            offset,
            len,
            copied + smaller(len - copied, COPY_BLOCK as int),
        )
    }
}

/// Copying block after block copies the file: exactly the bytes of the
/// input that the scan found it to have.
pub proof fn lemma_copied_whole(d: Seq<u8>, offset: int, len: int, copied: int)
    requires
        0 <= offset,
        0 <= copied <= len,
        offset + len <= d.len(),
    ensures
        copied_out(d, offset, len, copied) == d.subrange(offset + copied, offset + len),
    decreases len - copied,
{
    if copied < len {
        let n = smaller(len - copied, COPY_BLOCK as int);
        lemma_copied_whole(d, offset, len, copied + n);
    }
    assert(copied_out(d, offset, len, copied) =~= d.subrange(offset + copied, offset + len));
}

} // verus!
