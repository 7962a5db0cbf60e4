//! ASF (WMV/WMA) carver: an ASF file is a sequence of top-level objects,
//! each a 16-byte GUID followed by a 64-bit little-endian size, so the
//! exact file length is the sum of the declared object sizes.

use crate::carve::bytes::{get_le64, holds, is_at, le64, room, stands_at};
use crate::carve::carver::{bytes_at, Carver, CarverSpec, Measure, Measured, ReadAt, Signature};
use std::io;
use vstd::prelude::*;

verus! {

#[derive(Clone, Copy)]
pub struct Asf;

pub const MAX_LEN: u64 = 0x4_0000_0000;

pub open spec fn header_guid() -> Seq<u8> {
    seq![
        0x30u8, 0x26u8, 0xB2u8, 0x75u8, 0x8Eu8, 0x66u8, 0xCFu8, 0x11u8, 0xA6u8,
        0xD9u8, 0x00u8, 0xAAu8, 0x00u8, 0x62u8, 0xCEu8, 0x6Cu8,
    ]
}

pub open spec fn data_guid() -> Seq<u8> {
    seq![
        0x36u8, 0x26u8, 0xB2u8, 0x75u8, 0x8Eu8, 0x66u8, 0xCFu8, 0x11u8, 0xA6u8,
        0xD9u8, 0x00u8, 0xAAu8, 0x00u8, 0x62u8, 0xCEu8, 0x6Cu8,
    ]
}

/// The simple index object, which trails the data object.
pub open spec fn simple_index_guid() -> Seq<u8> {
    seq![
        0x90u8, 0x08u8, 0x00u8, 0x33u8, 0xB1u8, 0xE5u8, 0xCFu8, 0x11u8, 0x89u8,
        0xF4u8, 0x00u8, 0xA0u8, 0xC9u8, 0x03u8, 0x49u8, 0xCBu8,
    ]
}

/// The index object, which trails the data object.
pub open spec fn index_guid() -> Seq<u8> {
    seq![
        0xD3u8, 0x29u8, 0xE2u8, 0xD6u8, 0xDAu8, 0x35u8, 0xD1u8, 0x11u8, 0x90u8,
        0x34u8, 0x00u8, 0xA0u8, 0xC9u8, 0x03u8, 0x49u8, 0xBEu8,
    ]
}

/// The header of an object with a plausible size stands at `p`.
pub open spec fn is_object(d: Seq<u8>, p: int) -> bool {
    holds(d, p, 24) && le64(d, p + 16) >= 24
}

/// Where the data and index objects from `pos` on end, and whether there
/// was a data object; the walk goes on up to the longest file.
pub open spec fn walk(d: Seq<u8>, start: int, pos: int, seen_data: bool) -> (int, bool)
    decreases room(pos, start + MAX_LEN),
{
    if pos - start >= MAX_LEN || !is_object(d, pos) {
        (pos, seen_data)
    } else if stands_at(d, pos, data_guid()) {
        walk(d, start, pos + le64(d, pos + 16), true)
    } else if stands_at(d, pos, simple_index_guid()) || stands_at(d, pos, index_guid()) {
        walk(d, start, pos + le64(d, pos + 16), seen_data)
    } else {
        (pos, seen_data)
    }
}

/// What an object header says.
#[derive(Clone, Copy, PartialEq, Eq, Structural)]
enum Kind {
    Header,
    Data,
    Index,
    Other,
}

/// The kind and size of the object at `pos`.
fn object<R: ReadAt>(r: &mut R, pos: u64) -> (res: io::Result<Option<(Kind, u64)>>)
    ensures
        final(r).contents() == old(r).contents(),
        old(r).reliable() ==> final(r).reliable() && res is Ok,
        match res {
            Ok(Some((kind, size))) => {
                let d = old(r).contents();
                &&& is_object(d, pos as int)
                &&& size == le64(d, pos + 16)
                &&& kind == Kind::Header <==> stands_at(d, pos as int, header_guid())
                &&& kind == Kind::Data <==> stands_at(d, pos as int, data_guid())
                &&& kind == Kind::Index <==> stands_at(d, pos as int, simple_index_guid())
                    || stands_at(d, pos as int, index_guid())
            },
            Ok(None) => !is_object(old(r).contents(), pos as int),
            Err(_) => true,
        },
{
    let hdr: Vec<u8> = match bytes_at(r, pos, 24) {
        Ok(Some(v)) => v,
        Ok(None) => {
            return Ok(None);
        },
        Err(e) => {
            return Err(e);
        },
    };
    let ghost d = r.contents();
    let size: u64 = get_le64(&hdr, 16);
    if size < 24 {
        return Ok(None);
    }
    let header: [u8; 16] = [
        0x30, 0x26, 0xB2, 0x75, 0x8E, 0x66, 0xCF, 0x11, 0xA6, 0xD9, 0x00, 0xAA,
        0x00, 0x62, 0xCE, 0x6C,
    ];
    let data: [u8; 16] = [
        0x36, 0x26, 0xB2, 0x75, 0x8E, 0x66, 0xCF, 0x11, 0xA6, 0xD9, 0x00, 0xAA,
        0x00, 0x62, 0xCE, 0x6C,
    ];
    let simple: [u8; 16] = [
        0x90, 0x08, 0x00, 0x33, 0xB1, 0xE5, 0xCF, 0x11, 0x89, 0xF4, 0x00, 0xA0,
        0xC9, 0x03, 0x49, 0xCB,
    ];
    let index: [u8; 16] = [
        0xD3, 0x29, 0xE2, 0xD6, 0xDA, 0x35, 0xD1, 0x11, 0x90, 0x34, 0x00, 0xA0,
        0xC9, 0x03, 0x49, 0xBE,
    ];
    proof {
        assert(header@ =~= header_guid());
        assert(data@ =~= data_guid());
        assert(simple@ =~= simple_index_guid());
        assert(index@ =~= index_guid());
        assert(hdr@.subrange(0, 16) =~= d.subrange(pos as int, pos + 16));
        assert(header_guid()[0] != data_guid()[0]);
        assert(simple_index_guid()[0] == 0x90u8);
        assert(index_guid()[0] == 0xD3u8);
    }
    let kind: Kind = if is_at(&hdr, 0, &header) {
        Kind::Header
    } else if is_at(&hdr, 0, &data) {
        Kind::Data
    } else if is_at(&hdr, 0, &simple) || is_at(&hdr, 0, &index) {
        Kind::Index
    } else {
        Kind::Other
    };
    Ok(Some((kind, size)))
}

impl Carver for Asf {
    open spec fn signature(&self) -> Signature {
        Signature {
            name: "asf"@,
            extension: "wmv"@,
            magics: seq![header_guid()],
            magic_offset: 0,
            max_len: MAX_LEN as int,
        }
    }

    /// The header object and the data and index objects after it.
    open spec fn measured(&self, d: Seq<u8>, start: int) -> Measure {
        let size = le64(d, start + 16);
        let (end, seen_data) = walk(d, start, start + size, false);
        if is_object(d, start) && stands_at(d, start, header_guid()) && size <= MAX_LEN
            && seen_data {
            Some(
                (
                    if end - start < MAX_LEN {
                        end - start
                    } else {
                        MAX_LEN as int
                    },
                    "wmv"@,
                ),
            )
        } else {
            None
        }
    }

    fn spec(&self) -> (s: CarverSpec) {
        let s = CarverSpec {
            name: "asf",
            extension: "wmv",
            magics: &[
                &[
                    0x30, 0x26, 0xB2, 0x75, 0x8E, 0x66, 0xCF, 0x11, 0xA6, 0xD9,
                    0x00, 0xAA, 0x00, 0x62, 0xCE, 0x6C,
                ],
            ],
            magic_offset: 0,
            max_len: MAX_LEN,
        };
        assert(s.magics@[0]@ =~= header_guid());
        assert(s@ =~= self.signature());
        s
    }

    fn measure<R: ReadAt>(&self, r: &mut R, start: u64) -> (res: io::Result<Option<Measured>>) {
        let ghost d = r.contents();
        let size: u64 = match object(r, start) {
            Ok(Some((kind, size))) => {
                if kind != Kind::Header || size > MAX_LEN {
                    return Ok(None);
                }
                size
            },
            Ok(None) => {
                return Ok(None);
            },
            Err(e) => {
                return Err(e);
            },
        };
        let mut pos: u64 = start + size;
        let mut seen_data: bool = false;
        // The position without the limit of the machine's integers.
        let ghost mut at: int = pos as int;
        let mut going: bool = true;
        while going && pos - start < MAX_LEN
            invariant
                d == old(r).contents(),
                r.contents() == d,
                old(r).reliable() ==> r.reliable(),
                start <= pos,
                start <= crate::carve::carver::MAX_INPUT,
                size == le64(d, start + 16),
                at == pos || (pos == u64::MAX && at > pos),
                walk(d, start as int, start + size, false) == if going {
                    walk(d, start as int, at, seen_data)
                } else {
                    (at, seen_data)
                },
            decreases going as int, room(pos as int, start + MAX_LEN),
        {
            match object(r, pos) {
                Ok(Some((Kind::Data, n))) => {
                    seen_data = true;
                    proof {
                        at = at + n;
                    }
                    pos = pos.saturating_add(n);
                },
                Ok(Some((Kind::Index, n))) => {
                    proof {
                        at = at + n;
                    }
                    pos = pos.saturating_add(n);
                },
                Ok(_) => {
                    going = false;
                },
                Err(e) => {
                    return Err(e);
                },
            }
        }
        if !seen_data {
            return Ok(None);
        }
        let len: u64 = if pos - start < MAX_LEN {
            pos - start
        } else {
            MAX_LEN
        };
        Ok(Some(Measured { len, extension: "wmv" }))
    }
}

} // verus!
