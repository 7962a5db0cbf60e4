//! MPEG program stream (.mpg: DVD recorders, early camcorders) and MPEG
//! transport stream (.ts / AVCHD .m2ts) carvers.
//!
//! PS: walk pack headers / PES packets by start codes and declared
//! lengths until the program end code or loss of sync.
//! TS: validate a run of fixed-size packets (188, or 192 with a 4-byte
//! timestamp prefix as on AVCHD) whose sync byte 0x47 repeats at the
//! packet interval; the file extends while sync holds.

use crate::carve::bytes::{be16, get_be16, holds, room, search_limit, smaller};
use crate::carve::carver::{
    bytes_at, Carver, CarverSpec, MAX_INPUT, Measure, Measured, ReadAt, Signature,
};
use crate::carve::search::piece_at;
use std::io;
use vstd::prelude::*;

verus! {

#[derive(Clone, Copy)]
pub struct MpegPs;

pub const PS_MAX_LEN: u64 = 0x4_0000_0000;

/// A start code stands at `p`.
pub open spec fn is_start_code(d: Seq<u8>, p: int) -> bool {
    d[p] == 0 && d[p + 1] == 0 && d[p + 2] == 1
}

/// The length of the pack header at `p`: MPEG-2 starts with the bits 01 and
/// tells the length of its stuffing, MPEG-1 starts with 0010.
pub open spec fn pack_len(d: Seq<u8>, p: int) -> Option<int> {
    if !holds(d, p + 4, 10) {
        None
    } else if d[p + 4] / 64 == 1 {
        Some(14 + d[p + 13] % 8)
    } else if d[p + 4] / 16 == 2 {
        Some(12)
    } else {
        None
    }
}

/// The length of the packet with a start code at `p`; nothing where the
/// stream is out of sync. System headers and PES packets carry a 16-bit
/// length.
pub open spec fn packet_len(d: Seq<u8>, p: int) -> Option<int> {
    if d[p + 3] == 0xBA {
        pack_len(d, p)
    } else if d[p + 3] == 0xB9 {
        Some(4)
    } else if d[p + 3] >= 0xBB && holds(d, p, 6) {
        Some(6 + be16(d, p + 4))
    } else {
        None
    }
}

/// Where the packets from `pos` on end, and how many there are, after `n`
/// packets before. The program end code is the last one.
pub open spec fn walk(d: Seq<u8>, limit: int, pos: int, n: int) -> (int, int)
    decreases room(pos, limit),
{
    if pos + 4 > limit || !is_start_code(d, pos) {
        (pos, n)
    } else {
        match packet_len(d, pos) {
            Some(len) if d[pos + 3] == 0xB9 => (pos + len, n + 1),
            Some(len) => walk(d, limit, pos + len, n + 1),
            None => (pos, n),
        }
    }
}

/// The length of the packet at `pos`, whose start code ends with `code`.
fn packet<R: ReadAt>(r: &mut R, pos: u64, code: u8) -> (res: io::Result<Option<u64>>)
    requires
        pos <= MAX_INPUT,
        code == old(r).contents()[pos + 3],
    ensures
        final(r).contents() == old(r).contents(),
        old(r).reliable() ==> final(r).reliable() && res is Ok,
        match res {
            Ok(Some(n)) => packet_len(old(r).contents(), pos as int) == Some(n as int) && 0 < n
                <= 0x1_0010,
            Ok(None) => packet_len(old(r).contents(), pos as int) is None,
            Err(_) => true,
        },
{
    if code == 0xBA {
        match bytes_at(r, pos + 4, 10) {
            Ok(Some(body)) => {
                if body[0] / 64 == 1 {
                    // MPEG-2: 10 bytes + stuffing length in low 3 bits.
                    Ok(Some(14 + (body[9] % 8) as u64))
                } else if body[0] / 16 == 2 {
                    // MPEG-1
                    Ok(Some(12))
                } else {
                    Ok(None)
                }
            },
            Ok(None) => Ok(None),
            Err(e) => Err(e),
        }
    } else if code == 0xB9 {
        Ok(Some(4))
    } else if code >= 0xBB {
        match bytes_at(r, pos, 6) {
            Ok(Some(hdr)) => Ok(Some(6 + get_be16(&hdr, 4) as u64)),
            Ok(None) => Ok(None),
            Err(e) => Err(e),
        }
    } else {
        Ok(None)
    }
}

impl Carver for MpegPs {
    open spec fn signature(&self) -> Signature {
        Signature {
            name: "mpg"@,
            extension: "mpg"@,
            magics: seq![seq![0x00u8, 0x00u8, 0x01u8, 0xBAu8]],
            magic_offset: 0,
            max_len: PS_MAX_LEN as int,
        }
    }

    /// A few packets are needed, so that garbage after a stray start code
    /// is not carved.
    open spec fn measured(&self, d: Seq<u8>, start: int) -> Measure {
        let (end, packets) = walk(d, smaller(start + PS_MAX_LEN, d.len() as int), start, 0);
        if packets >= 4 && end > start + 32 {
            Some((smaller(end - start, PS_MAX_LEN as int), "mpg"@))
        } else {
            None
        }
    }

    fn spec(&self) -> (s: CarverSpec) {
        let s = CarverSpec {
            name: "mpg",
            extension: "mpg",
            magics: &[&[0x00, 0x00, 0x01, 0xBA]],
            magic_offset: 0,
            max_len: PS_MAX_LEN,
        };
        assert(s.magics@[0]@ =~= self.signature().magics[0]);
        assert(s@ =~= self.signature());
        s
    }

    fn measure<R: ReadAt>(&self, r: &mut R, start: u64) -> (res: io::Result<Option<Measured>>) {
        let ghost d = r.contents();
        let total: u64 = r.total_len();
        let limit: u64 = search_limit(start, PS_MAX_LEN, total);
        let mut pos: u64 = start;
        let mut packets: u64 = 0;
        let mut going: bool = true;
        while going && pos + 4 <= limit
            invariant
                d == old(r).contents(),
                r.contents() == d,
                old(r).reliable() ==> r.reliable(),
                total == d.len(),
                total <= MAX_INPUT,
                start <= MAX_INPUT,
                limit == smaller(start + PS_MAX_LEN, total as int),
                start <= pos <= start + PS_MAX_LEN + 0x1_0010,
                packets <= pos - start,
                walk(d, limit as int, start as int, 0) == if going {
                    walk(d, limit as int, pos as int, packets as int)
                } else {
                    (pos as int, packets as int)
                },
            decreases going as int, room(pos as int, limit as int),
        {
            let hdr: Vec<u8> = match bytes_at(r, pos, 4) {
                Ok(Some(v)) => v,
                Ok(None) => {
                    return Ok(None);
                },
                Err(e) => {
                    return Err(e);
                },
            };
            assert(hdr@[0] == d[pos as int] && hdr@[1] == d[pos + 1] && hdr@[2] == d[pos + 2]
                && hdr@[3] == d[pos + 3]);
            if hdr[0] != 0 || hdr[1] != 0 || hdr[2] != 1 {
                going = false;
            } else {
                match packet(r, pos, hdr[3]) {
                    Ok(Some(n)) => {
                        pos = pos + n;
                        packets = packets + 1;
                        if hdr[3] == 0xB9 {
                            // program end code
                            going = false;
                        }
                    },
                    Ok(None) => {
                        going = false;
                    },
                    Err(e) => {
                        return Err(e);
                    },
                }
            }
        }
        if packets < 4 || pos <= start + 32 {
            return Ok(None);
        }
        let whole: u64 = pos - start;
        let len: u64 = if whole < PS_MAX_LEN {
            whole
        } else {
            PS_MAX_LEN
        };
        Ok(Some(Measured { len, extension: "mpg" }))
    }
}

/// Transport stream, with or without a 4-byte arrival timestamp before
/// each packet of 188 bytes.
#[derive(Clone, Copy)]
pub struct MpegTs {
    pub timestamps: bool,
}

pub const TS_MAX_LEN: u64 = 0x10_0000_0000;

/// Consecutive valid packets required before trusting a 0x47 hit.
pub const MIN_PACKETS: u64 = 16;

/// Packets that are read at a time.
pub const BLOCK_PACKETS: u64 = 256;

/// How many whole packets in sync there are from `pos` on up to `limit`.
pub open spec fn sync_run(d: Seq<u8>, limit: int, pos: int, packet: int, sync: int) -> int
    decreases room(pos, limit),
{
    if packet <= 0 || pos + packet > limit || d[pos + sync] != 0x47 {
        0
    } else {
        1 + sync_run(d, limit, pos + packet, packet, sync)
    }
}

impl MpegTs {
    pub fn ts188() -> (r: Self)
        ensures
            !r.timestamps,
    {
        MpegTs { timestamps: false }
    }

    /// AVCHD / Blu-ray: 4-byte arrival timestamp before each 188-byte packet.
    pub fn m2ts192() -> (r: Self)
        ensures
            r.timestamps,
    {
        MpegTs { timestamps: true }
    }

    /// The bytes per packet.
    pub open spec fn packet_size(&self) -> int {
        if self.timestamps {
            192
        } else {
            188
        }
    }

    /// Where the sync byte is in each packet.
    pub open spec fn sync_offset(&self) -> int {
        if self.timestamps {
            4
        } else {
            0
        }
    }
}

impl Carver for MpegTs {
    open spec fn signature(&self) -> Signature {
        Signature {
            name: if self.timestamps {
                "m2ts"@
            } else {
                "ts"@
            },
            extension: if self.timestamps {
                "m2ts"@
            } else {
                "ts"@
            },
            magics: seq![seq![0x47u8]],
            magic_offset: self.sync_offset(),
            max_len: TS_MAX_LEN as int,
        }
    }

    open spec fn measured(&self, d: Seq<u8>, start: int) -> Measure {
        let limit = smaller(start + TS_MAX_LEN, d.len() as int);
        let n = sync_run(d, limit, start, self.packet_size(), self.sync_offset());
        if n >= MIN_PACKETS {
            Some((n * self.packet_size(), self.signature().extension))
        } else {
            None
        }
    }

    fn spec(&self) -> (s: CarverSpec) {
        let s = if self.timestamps {
            CarverSpec {
                name: "m2ts",
                extension: "m2ts",
                magics: &[&[0x47]],
                magic_offset: 4,
                max_len: TS_MAX_LEN,
            }
        } else {
            CarverSpec {
                name: "ts",
                extension: "ts",
                magics: &[&[0x47]],
                magic_offset: 0,
                max_len: TS_MAX_LEN,
            }
        };
        assert(s.magics@[0]@ =~= self.signature().magics[0]);
        assert(s@ =~= self.signature());
        s
    }

    fn measure<R: ReadAt>(&self, r: &mut R, start: u64) -> (res: io::Result<Option<Measured>>) {
        let ghost d = r.contents();
        let total: u64 = r.total_len();
        let limit: u64 = search_limit(start, TS_MAX_LEN, total);
        let (packet, sync): (u64, u64) = if self.timestamps {
            (192, 4)
        } else {
            (188, 0)
        };
        let mut pos: u64 = start;
        let mut packets: u64 = 0;
        let mut going: bool = true;
        while going && pos + packet <= limit
            invariant
                d == old(r).contents(),
                r.contents() == d,
                old(r).reliable() ==> r.reliable(),
                total == d.len(),
                total <= MAX_INPUT,
                start <= MAX_INPUT,
                limit == smaller(start + TS_MAX_LEN, total as int),
                packet == self.packet_size(),
                sync == self.sync_offset(),
                pos == start + packets * packet,
                pos <= limit || pos == start,
                sync_run(d, limit as int, start as int, packet as int, sync as int) == packets
                    + if going {
                    sync_run(d, limit as int, pos as int, packet as int, sync as int)
                } else {
                    0
                },
            decreases going as int, room(pos as int, limit as int),
        {
            let left: u64 = limit - pos;
            let want: u64 = if left < packet * BLOCK_PACKETS {
                left
            } else {
                packet * BLOCK_PACKETS
            };
            let block: Vec<u8> = match piece_at(r, pos, want as usize) {
                Ok(v) => v,
                Err(e) => {
                    return Err(e);
                },
            };
            let ghost base = pos as int;
            let mut at: u64 = 0;
            while going && at + packet <= want
                invariant
                    d.len() == total,
                    total <= MAX_INPUT,
                    start <= MAX_INPUT,
                    limit <= total,
                    limit <= start + TS_MAX_LEN,
                    packet == self.packet_size(),
                    sync == self.sync_offset(),
                    base + want <= limit,
                    want <= packet * BLOCK_PACKETS,
                    block@.len() == want,
                    forall|j: int| 0 <= j < want ==> #[trigger] block@[j] == d[base + j],
                    at <= want,
                    pos == base + at,
                    pos == start + packets * packet,
                    sync_run(d, limit as int, start as int, packet as int, sync as int) == packets
                        + if going {
                        sync_run(d, limit as int, pos as int, packet as int, sync as int)
                    } else {
                        0
                    },
                decreases going as int, want - at,
            {
                if block[(at + sync) as usize] != 0x47 {
                    going = false;
                } else {
                    assert((packets + 1) * packet == packets * packet + packet)
                        by (nonlinear_arith);
                    assert(packets <= pos) by (nonlinear_arith)
                        requires
                            pos == start + packets * packet,
                            packet >= 1,
                    ;
                    packets = packets + 1;
                    at = at + packet;
                    pos = pos + packet;
                }
            }
        }
        if packets < MIN_PACKETS {
            return Ok(None);
        }
        let extension: &'static str = if self.timestamps {
            "m2ts"
        } else {
            "ts"
        };
        Ok(Some(Measured { len: pos - start, extension }))
    }
}

} // verus!
