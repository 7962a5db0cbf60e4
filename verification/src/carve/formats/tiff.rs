//! TIFF carver: also covers TIFF-based camera RAW (CR2, and typically
//! NEF/ARW/DNG). TIFF declares no total length, so the extent is computed
//! by walking the IFD chain and taking the furthest end of any referenced
//! data: out-of-line entry values, strip/tile data (offsets + byte
//! counts), Exif/sub-IFDs. This recovers the full file for the common
//! layouts where image data follows the metadata.

use crate::carve::bytes::{
    be16, be32, get_be16, get_be32, get_le16, get_le32, holds, le16, le32, smaller,
};
use crate::carve::carver::{
    bytes_at, Carver, CarverSpec, MAX_INPUT, Measure, Measured, ReadAt, Signature,
};
use std::io;
use vstd::prelude::*;

verus! {

#[derive(Clone, Copy)]
pub struct Tiff;

pub const MAX_LEN: u64 = 0x8000_0000;

pub const TAG_STRIP_OFFSETS: u16 = 273;

pub const TAG_STRIP_COUNTS: u16 = 279;

pub const TAG_TILE_OFFSETS: u16 = 324;

pub const TAG_TILE_COUNTS: u16 = 325;

pub const TAG_SUB_IFDS: u16 = 0x014A;

pub const TAG_EXIF_IFD: u16 = 0x8769;

/// Directories that are followed before giving up.
pub const MAX_IFDS: u32 = 64;

/// Values of one entry that are read before giving up.
pub const MAX_VALUES: u32 = 65536;

/// Entries that a plausible directory has at most.
pub const MAX_ENTRIES: u16 = 4096;

/// The bytes that a value of the type `t` takes; 0 for an unknown type.
pub open spec fn size_of_type(t: int) -> int {
    if t == 1 || t == 2 || t == 6 || t == 7 {
        1
    } else if t == 3 || t == 8 {
        2
    } else if t == 4 || t == 9 || t == 11 || t == 13 {
        4
    } else if t == 5 || t == 10 || t == 12 || 16 <= t <= 18 {
        8
    } else {
        0
    }
}

/// A file in an input: where it starts, its byte order, and how long it
/// can be.
pub struct Place {
    pub d: Seq<u8>,
    pub start: int,
    pub le: bool,
    pub limit: int,
}

/// What the walk has found so far: the furthest end of referenced data,
/// and how many more directories it follows.
pub struct Walked {
    pub max_end: int,
    pub left: nat,
}

impl Place {
    /// The 16-bit number at `off` in the file.
    pub open spec fn short(self, off: int) -> Option<int> {
        if !holds(self.d, self.start + off, 2) {
            None
        } else if self.le {
            Some(le16(self.d, self.start + off))
        } else {
            Some(be16(self.d, self.start + off))
        }
    }

    /// The 32-bit number at `off` in the file.
    pub open spec fn long(self, off: int) -> Option<int> {
        if !holds(self.d, self.start + off, 4) {
            None
        } else if self.le {
            Some(le32(self.d, self.start + off))
        } else {
            Some(be32(self.d, self.start + off))
        }
    }

    /// The `i`-th value of `size` bytes of an array at `base`.
    pub open spec fn value(self, base: int, size: int, i: int) -> Option<int> {
        if size == 2 {
            self.short(base + 2 * i)
        } else if size == 4 {
            self.long(base + 4 * i)
        } else {
            None
        }
    }

    /// Where the values of an entry are: in the value field itself where
    /// they fit, else where it points.
    pub open spec fn values_base(self, size: int, count: int, field: int) -> Option<int> {
        if size * count <= 4 {
            Some(field)
        } else {
            self.long(field)
        }
    }

    /// The values of an entry of 16-bit or 32-bit numbers.
    pub open spec fn values(self, t: int, count: int, field: int) -> Option<Seq<int>> {
        let size = size_of_type(t);
        match self.values_base(size, count, field) {
            Some(base) if size > 0 && count <= MAX_VALUES && (forall|i: int|
                0 <= i < count ==> #[trigger] self.value(base, size, i) is Some) => Some(
                Seq::new(count as nat, |i: int| self.value(base, size, i)->0),
            ),
            _ => None,
        }
    }

    /// `w` with data noted that ends at `end`; data that does not fit the
    /// file is not.
    pub open spec fn noted(self, w: Walked, end: int) -> Walked {
        if w.max_end < end <= self.limit {
            Walked { max_end: end, left: w.left }
        } else {
            w
        }
    }

    /// `w` with the first `n` strips noted.
    pub open spec fn strips_noted(
        self,
        w: Walked,
        offsets: Seq<int>,
        counts: Seq<int>,
        n: int,
    ) -> Walked
        decreases n,
    {
        if n <= 0 {
            w
        } else {
            self.noted(
                self.strips_noted(w, offsets, counts, n - 1),
                offsets[n - 1] + counts[n - 1],
            )
        }
    }

    /// `w` with the values noted of an entry at `e`, where they are out of
    /// line.
    pub open spec fn entry_noted(self, w: Walked, e: int) -> Walked {
        let total = size_of_type(self.short(e + 2)->0) * self.long(e + 4)->0;
        match self.long(e + 8) {
            Some(off) if total > 4 => self.noted(w, off + total),
            _ => w,
        }
    }

    /// The walk through the directory at `ifd` and all it leads to.
    pub open spec fn walk(self, w: Walked, ifd: int) -> Walked
        decreases w.left, 0int, 0int,
    {
        if w.left == 0 || ifd == 0 || ifd >= self.limit {
            w
        } else {
            let entered = Walked { max_end: w.max_end, left: (w.left - 1) as nat };
            match self.short(ifd) {
                Some(n) if 0 < n <= MAX_ENTRIES => match self.entries(
                    entered,
                    ifd + 2,
                    n,
                    0,
                    None,
                    None,
                ) {
                    (done, Some((offsets, counts))) => {
                        let table_end = ifd + 2 + 12 * n;
                        let strips = match (offsets, counts) {
                            (Some(o), Some(c)) => self.strips_noted(
                                done,
                                o,
                                c,
                                smaller(o.len() as int, c.len() as int),
                            ),
                            _ => done,
                        };
                        let noted = self.noted(strips, table_end + 4);
                        match self.long(table_end) {
                            Some(next) => self.walk(not_above(noted, entered.left), next),
                            None => noted,
                        }
                    },
                    (done, None) => done,
                },
                _ => entered,
            }
        }
    }

    /// The walk through the entries of a directory from the `i`-th on.
    /// Gives the strip offsets and byte counts too, unless an entry could
    /// not be read.
    pub open spec fn entries(
        self,
        w: Walked,
        table: int,
        n: int,
        i: int,
        offsets: Option<Seq<int>>,
        counts: Option<Seq<int>>,
    ) -> (Walked, Option<(Option<Seq<int>>, Option<Seq<int>>)>)
        decreases w.left, 2int, n - i,
    {
        let e = table + 12 * i;
        if i >= n {
            (w, Some((offsets, counts)))
        } else {
            match (self.short(e), self.short(e + 2), self.long(e + 4)) {
                (Some(tag), Some(t), Some(count)) => {
                    let noted = not_above(self.entry_noted(w, e), w.left);
                    if tag == TAG_STRIP_OFFSETS || tag == TAG_TILE_OFFSETS {
                        self.entries(noted, table, n, i + 1, self.values(t, count, e + 8), counts)
                    } else if tag == TAG_STRIP_COUNTS || tag == TAG_TILE_COUNTS {
                        self.entries(noted, table, n, i + 1, offsets, self.values(t, count, e + 8))
                    } else {
                        let after = match (self.values(t, count, e + 8), self.long(e + 8)) {
                            (Some(ifds), _) if tag == TAG_SUB_IFDS => self.subs(noted, ifds, 0),
                            (_, Some(ifd)) if tag == TAG_EXIF_IFD => self.walk(noted, ifd),
                            _ => noted,
                        };
                        self.entries(
                            not_above(after, noted.left),
                            table,
                            n,
                            i + 1,
                            offsets,
                            counts,
                        )
                    }
                },
                _ => (w, None),
            }
        }
    }

    /// The walks through the directories `ifds` from the `j`-th on.
    pub open spec fn subs(self, w: Walked, ifds: Seq<int>, j: int) -> Walked
        decreases w.left, 1int, ifds.len() - j,
    {
        if j < 0 || j >= ifds.len() {
            w
        } else {
            self.subs(not_above(self.walk(w, ifds[j]), w.left), ifds, j + 1)
        }
    }
}

/// `w` with at most `left` more directories to follow.
pub open spec fn not_above(w: Walked, left: nat) -> Walked {
    if w.left <= left {
        w
    } else {
        Walked { max_end: w.max_end, left }
    }
}

fn type_size(t: u16) -> (r: u64)
    ensures
        r == size_of_type(t as int),
        r <= 8,
{
    match t {
        1 | 2 | 6 | 7 => 1,
        3 | 8 => 2,
        4 | 9 | 11 | 13 => 4,
        5 | 10 | 12 | 16 | 17 | 18 => 8,
        _ => 0,
    }
}

struct Walker {
    start: u64,
    le: bool,
    limit: u64,
    max_end: u64,
    ifds_left: u32,
}

/// `a` and `b` are the same values, or both none.
spec fn same_list(a: Option<Vec<u64>>, b: Option<Seq<int>>) -> bool {
    match a {
        Some(v) => b matches Some(s) && is_list(v@, s),
        None => b is None,
    }
}

spec fn is_list(v: Seq<u64>, s: Seq<int>) -> bool {
    &&& s.len() == v.len()
    &&& forall|i: int| 0 <= i < v.len() ==> s[i] == #[trigger] v[i] && v[i] <= u32::MAX
}

impl Walker {
    spec fn place(&self, d: Seq<u8>) -> Place {
        Place { d, start: self.start as int, le: self.le, limit: self.limit as int }
    }

    spec fn walked(&self) -> Walked {
        Walked { max_end: self.max_end as int, left: self.ifds_left as nat }
    }

    fn u16_at<R: ReadAt>(&self, r: &mut R, off: u64) -> (res: io::Result<Option<u16>>)
        requires
            self.start <= MAX_INPUT,
            off <= MAX_INPUT,
        ensures
            final(r).contents() == old(r).contents(),
            old(r).reliable() ==> final(r).reliable() && res is Ok,
            match res {
                Ok(Some(x)) => self.place(old(r).contents()).short(off as int) == Some(x as int),
                Ok(None) => self.place(old(r).contents()).short(off as int) is None,
                Err(_) => true,
            },
    {
        match bytes_at(r, self.start + off, 2) {
            Ok(Some(b)) => {
                if self.le {
                    Ok(Some(get_le16(&b, 0)))
                } else {
                    Ok(Some(get_be16(&b, 0)))
                }
            },
            Ok(None) => Ok(None),
            Err(e) => Err(e),
        }
    }

    fn u32_at<R: ReadAt>(&self, r: &mut R, off: u64) -> (res: io::Result<Option<u32>>)
        requires
            self.start <= MAX_INPUT,
            off <= MAX_INPUT,
        ensures
            final(r).contents() == old(r).contents(),
            old(r).reliable() ==> final(r).reliable() && res is Ok,
            match res {
                Ok(Some(x)) => self.place(old(r).contents()).long(off as int) == Some(x as int),
                Ok(None) => self.place(old(r).contents()).long(off as int) is None,
                Err(_) => true,
            },
    {
        match bytes_at(r, self.start + off, 4) {
            Ok(Some(b)) => {
                if self.le {
                    Ok(Some(get_le32(&b, 0)))
                } else {
                    Ok(Some(get_be32(&b, 0)))
                }
            },
            Ok(None) => Ok(None),
            Err(e) => Err(e),
        }
    }

    fn note_end(&mut self, end: u64, Ghost(d): Ghost<Seq<u8>>)
        ensures
            final(self).place(d) == old(self).place(d),
            final(self).walked() == old(self).place(d).noted(old(self).walked(), end as int),
            final(self).ifds_left == old(self).ifds_left,
            final(self).start == old(self).start,
            final(self).limit == old(self).limit,
            final(self).le == old(self).le,
    {
        if end <= self.limit && end > self.max_end {
            self.max_end = end;
        }
    }

    /// Read a LONG/SHORT array entry's values (offsets or byte counts).
    fn entry_values<R: ReadAt>(&self, r: &mut R, typ: u16, count: u32, field: u64) -> (res:
        io::Result<Option<Vec<u64>>>)
        requires
            self.start <= MAX_INPUT,
            field <= 0x1_0000_0000,
        ensures
            final(r).contents() == old(r).contents(),
            old(r).reliable() ==> final(r).reliable() && res is Ok,
            res matches Ok(v) ==> same_list(
                v,
                self.place(old(r).contents()).values(typ as int, count as int, field as int),
            ),
    {
        let ghost d = r.contents();
        let ghost c = self.place(d);
        let size: u64 = type_size(typ);
        if size == 0 || count > MAX_VALUES {
            return Ok(None);
        }
        assert(size * count <= 8 * 65536) by (nonlinear_arith)
            requires
                0 < size <= 8,
                count <= 65536,
        ;
        let total: u64 = size * count as u64;
        // Arrays of up to 4 bytes live inline in the value field.
        let base: u64 = if total <= 4 {
            field
        } else {
            match self.u32_at(r, field) {
                Ok(Some(o)) => o as u64,
                Ok(None) => {
                    return Ok(None);
                },
                Err(e) => {
                    return Err(e);
                },
            }
        };
        let mut out: Vec<u64> = Vec::new();
        let mut i: u32 = 0;
        while i < count
            invariant
                i <= count <= MAX_VALUES,
                d == old(r).contents(),
                r.contents() == d,
                old(r).reliable() ==> r.reliable(),
                c == self.place(d),
                self.start <= MAX_INPUT,
                size == size_of_type(typ as int),
                0 < size <= 8,
                base <= 0x1_0000_0000,
                c.values_base(size as int, count as int, field as int) == Some(base as int),
                out@.len() == i,
                forall|j: int|
                    0 <= j < i ==> #[trigger] c.value(base as int, size as int, j) == Some(
                        out@[j] as int,
                    ) && out@[j] <= u32::MAX,
            decreases count - i,
        {
            let v: Option<u64> = if size == 2 {
                match self.u16_at(r, base + 2 * i as u64) {
                    Ok(Some(x)) => Some(x as u64),
                    Ok(None) => None,
                    Err(e) => {
                        return Err(e);
                    },
                }
            } else if size == 4 {
                match self.u32_at(r, base + 4 * i as u64) {
                    Ok(Some(x)) => Some(x as u64),
                    Ok(None) => None,
                    Err(e) => {
                        return Err(e);
                    },
                }
            } else {
                None
            };
            match v {
                Some(x) => {
                    out.push(x);
                },
                None => {
                    assert(c.value(base as int, size as int, i as int) is None);
                    return Ok(None);
                },
            }
            i = i + 1;
        }
        proof {
            let s = c.values(typ as int, count as int, field as int);
            assert(s is Some);
            assert forall|j: int| 0 <= j < out@.len() implies s->0[j] == #[trigger] out@[j]
                && out@[j] <= u32::MAX by {
                assert(c.value(base as int, size as int, j) == Some(out@[j] as int));
            }
        }
        Ok(Some(out))
    }

    fn walk_ifd<R: ReadAt>(&mut self, r: &mut R, ifd: u64) -> (res: io::Result<()>)
        requires
            old(self).start <= MAX_INPUT,
            old(self).limit <= MAX_LEN,
            ifd <= u32::MAX,
        ensures
            final(r).contents() == old(r).contents(),
            old(r).reliable() ==> final(r).reliable() && res is Ok,
            final(self).place(old(r).contents()) == old(self).place(old(r).contents()),
            final(self).ifds_left <= old(self).ifds_left,
            res is Ok ==> final(self).walked() == old(self).place(old(r).contents()).walk(
                old(self).walked(),
                ifd as int,
            ),
        decreases old(self).ifds_left,
    {
        let ghost d = r.contents();
        let ghost c = self.place(d);
        let ghost w0 = self.walked();
        if self.ifds_left == 0 || ifd == 0 || ifd >= self.limit {
            return Ok(());
        }
        self.ifds_left = self.ifds_left - 1;
        let left: u32 = self.ifds_left;
        let ghost entered = self.walked();
        let count: u16 = match self.u16_at(r, ifd) {
            Ok(Some(n)) => n,
            Ok(None) => {
                return Ok(());
            },
            Err(e) => {
                return Err(e);
            },
        };
        if count == 0 || count > MAX_ENTRIES {
            return Ok(());
        }
        let table: u64 = ifd + 2;
        let mut offsets: Option<Vec<u64>> = None;
        let mut counts: Option<Vec<u64>> = None;
        let ghost mut so: Option<Seq<int>> = None;
        let ghost mut sc: Option<Seq<int>> = None;
        let mut i: u16 = 0;
        while i < count
            invariant
                d == old(r).contents(),
                r.contents() == d,
                old(r).reliable() ==> r.reliable(),
                c == self.place(d),
                c == old(self).place(d),
                self.start <= MAX_INPUT,
                self.limit <= MAX_LEN,
                0 < count <= MAX_ENTRIES,
                i <= count,
                table == ifd + 2,
                ifd <= u32::MAX,
                ifd < MAX_LEN,
                self.ifds_left <= left < old(self).ifds_left,
                w0 == old(self).walked(),
                entered == (Walked { max_end: w0.max_end, left: left as nat }),
                w0.left == left + 1,
                ifd != 0,
                ifd < c.limit,
                c.short(ifd as int) == Some(count as int),
                same_list(offsets, so),
                same_list(counts, sc),
                c.entries(entered, table as int, count as int, 0, None, None) == c.entries(
                    self.walked(),
                    table as int,
                    count as int,
                    i as int,
                    so,
                    sc,
                ),
            decreases count - i,
        {
            let e: u64 = table + 12 * i as u64;
            let ghost w1 = self.walked();
            let tag: Option<u16> = match self.u16_at(r, e) {
                Ok(x) => x,
                Err(er) => {
                    return Err(er);
                },
            };
            let typ: Option<u16> = match self.u16_at(r, e + 2) {
                Ok(x) => x,
                Err(er) => {
                    return Err(er);
                },
            };
            let n: Option<u32> = match self.u32_at(r, e + 4) {
                Ok(x) => x,
                Err(er) => {
                    return Err(er);
                },
            };
            if tag.is_none() || typ.is_none() || n.is_none() {
                return Ok(());
            }
            let tag: u16 = tag.unwrap();
            let typ: u16 = typ.unwrap();
            let n: u32 = n.unwrap();
            let size: u64 = type_size(typ);
            assert(size * n <= 8 * u32::MAX) by (nonlinear_arith)
                requires
                    size <= 8,
                    n <= u32::MAX,
            ;
            let total: u64 = size * n as u64;
            if total > 4 {
                match self.u32_at(r, e + 8) {
                    Ok(Some(off)) => {
                        self.note_end(off as u64 + total, Ghost(d));
                    },
                    Ok(None) => {},
                    Err(er) => {
                        return Err(er);
                    },
                }
            }
            let ghost noted = self.walked();
            assert(noted == c.entry_noted(w1, e as int));
            if tag == TAG_STRIP_OFFSETS || tag == TAG_TILE_OFFSETS {
                match self.entry_values(r, typ, n, e + 8) {
                    Ok(v) => {
                        offsets = v;
                        proof {
                            so = c.values(typ as int, n as int, e + 8);
                        }
                    },
                    Err(er) => {
                        return Err(er);
                    },
                }
            } else if tag == TAG_STRIP_COUNTS || tag == TAG_TILE_COUNTS {
                match self.entry_values(r, typ, n, e + 8) {
                    Ok(v) => {
                        counts = v;
                        proof {
                            sc = c.values(typ as int, n as int, e + 8);
                        }
                    },
                    Err(er) => {
                        return Err(er);
                    },
                }
            } else if tag == TAG_SUB_IFDS {
                match self.entry_values(r, typ, n, e + 8) {
                    Ok(Some(ifds)) => {
                        let ghost list = c.values(typ as int, n as int, e + 8)->0;
                        let mut j: usize = 0;
                        while j < ifds.len()
                            invariant
                                d == old(r).contents(),
                                r.contents() == d,
                                old(r).reliable() ==> r.reliable(),
                                c == self.place(d),
                                c == old(self).place(d),
                                self.start <= MAX_INPUT,
                                self.limit <= MAX_LEN,
                                self.ifds_left <= left < old(self).ifds_left,
                                self.ifds_left <= noted.left,
                                is_list(ifds@, list),
                                j <= ifds@.len(),
                                c.subs(noted, list, 0) == c.subs(self.walked(), list, j as int),
                            decreases ifds@.len() - j,
                        {
                            match self.walk_ifd(r, ifds[j]) {
                                Ok(()) => {},
                                Err(er) => {
                                    return Err(er);
                                },
                            }
                            j = j + 1;
                        }
                    },
                    Ok(None) => {},
                    Err(er) => {
                        return Err(er);
                    },
                }
            } else if tag == TAG_EXIF_IFD {
                match self.u32_at(r, e + 8) {
                    Ok(Some(o)) => {
                        match self.walk_ifd(r, o as u64) {
                            Ok(()) => {},
                            Err(er) => {
                                return Err(er);
                            },
                        }
                    },
                    Ok(None) => {},
                    Err(er) => {
                        return Err(er);
                    },
                }
            }
            i = i + 1;
        }
        let ghost done = self.walked();
        if let (Some(offs), Some(cnts)) = (&offsets, &counts) {
            let ghost o = so->0;
            let ghost k = sc->0;
            let m: usize = if offs.len() < cnts.len() {
                offs.len()
            } else {
                cnts.len()
            };
            let mut j: usize = 0;
            while j < m
                invariant
                    c == self.place(d),
                    self.start <= MAX_INPUT,
                    self.limit <= MAX_LEN,
                    self.ifds_left <= left,
                    is_list(offs@, o),
                    is_list(cnts@, k),
                    j <= m,
                    m <= offs@.len(),
                    m <= cnts@.len(),
                    self.walked() == c.strips_noted(done, o, k, j as int),
                decreases m - j,
            {
                assert(o[j as int] == offs@[j as int] && k[j as int] == cnts@[j as int]);
                self.note_end(offs[j] + cnts[j], Ghost(d));
                j = j + 1;
            }
        }
        // End of this IFD's own table.
        let end: u64 = table + 12 * count as u64;
        self.note_end(end + 4, Ghost(d));
        match self.u32_at(r, end) {
            Ok(Some(next)) => self.walk_ifd(r, next as u64),
            Ok(None) => Ok(()),
            Err(e) => Err(e),
        }
    }
}

impl Carver for Tiff {
    open spec fn signature(&self) -> Signature {
        Signature {
            name: "tiff"@,
            extension: "tif"@,
            magics: seq![seq![0x49u8, 0x49u8, 0x2Au8, 0x00u8], seq![0x4Du8, 0x4Du8, 0x00u8, 0x2Au8]],
            magic_offset: 0,
            max_len: MAX_LEN as int,
        }
    }

    /// The furthest end of what the directories refer to; a real TIFF
    /// refers to data past its header.
    open spec fn measured(&self, d: Seq<u8>, start: int) -> Measure {
        let place = Place {
            d,
            start,
            le: d[start] == 0x49 && d[start + 1] == 0x49,
            limit: smaller(MAX_LEN as int, d.len() - start),
        };
        let first = place.long(4)->0;
        let end = place.walk(Walked { max_end: 8, left: MAX_IFDS as nat }, first).max_end;
        if !holds(d, start, 12) || first < 8 || end <= 14 {
            None
        } else if d[start + 8] == 0x43 && d[start + 9] == 0x52 {
            // CR2 marks itself at offset 8.
            Some((end, "cr2"@))
        } else {
            Some((end, "tif"@))
        }
    }

    fn spec(&self) -> (s: CarverSpec) {
        let s = CarverSpec {
            name: "tiff",
            extension: "tif",
            magics: &[&[0x49, 0x49, 0x2A, 0x00], &[0x4D, 0x4D, 0x00, 0x2A]],
            magic_offset: 0,
            max_len: MAX_LEN,
        };
        assert(s.magics@[0]@ =~= self.signature().magics[0]);
        assert(s.magics@[1]@ =~= self.signature().magics[1]);
        assert(s@ =~= self.signature());
        s
    }

    fn measure<R: ReadAt>(&self, r: &mut R, start: u64) -> (res: io::Result<Option<Measured>>) {
        let ghost d = r.contents();
        let hdr: Vec<u8> = match bytes_at(r, start, 12) {
            Ok(Some(v)) => v,
            Ok(None) => {
                return Ok(None);
            },
            Err(e) => {
                return Err(e);
            },
        };
        assert(hdr@[0] == d[start as int] && hdr@[1] == d[start + 1]);
        assert(hdr@[8] == d[start + 8] && hdr@[9] == d[start + 9]);
        let le: bool = hdr[0] == 0x49 && hdr[1] == 0x49;
        let is_cr2: bool = hdr[8] == 0x43 && hdr[9] == 0x52;
        let rest: u64 = r.total_len() - start;
        let limit: u64 = if MAX_LEN < rest {
            MAX_LEN
        } else {
            rest
        };
        let mut w = Walker { start, le, limit, max_end: 8, ifds_left: MAX_IFDS };
        let first: u32 = match w.u32_at(r, 4) {
            Ok(Some(o)) => o,
            Ok(None) => {
                return Ok(None);
            },
            Err(e) => {
                return Err(e);
            },
        };
        if first < 8 {
            return Ok(None);
        }
        match w.walk_ifd(r, first as u64) {
            Ok(()) => {},
            Err(e) => {
                return Err(e);
            },
        }
        let len: u64 = w.max_end;
        if len <= 14 {
            return Ok(None);
        }
        let extension: &'static str = if is_cr2 {
            "cr2"
        } else {
            "tif"
        };
        Ok(Some(Measured { len, extension }))
    }
}

} // verus!
