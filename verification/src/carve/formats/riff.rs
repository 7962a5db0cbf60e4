//! RIFF container carver: AVI, WAV and WebP all declare their size in
//! the RIFF header (exact). AVIs over ~2 GiB (OpenDML) continue in
//! additional `RIFF....AVIX` segments, which are appended to the extent.

use crate::carve::bytes::{get_le32, holds, is_at, le32, room, stands_at};
use crate::carve::carver::{bytes_at, Carver, CarverSpec, Measure, Measured, ReadAt, Signature};
use std::io;
use vstd::prelude::*;

verus! {

#[derive(Clone, Copy)]
pub struct Riff;

pub const MAX_LEN: u64 = 0x10_0000_0000;

/// "RIFF"
pub open spec fn riff_tag() -> Seq<u8> {
    seq![0x52u8, 0x49u8, 0x46u8, 0x46u8]
}

/// "AVI "
pub open spec fn avi_tag() -> Seq<u8> {
    seq![0x41u8, 0x56u8, 0x49u8, 0x20u8]
}

/// "WAVE"
pub open spec fn wave_tag() -> Seq<u8> {
    seq![0x57u8, 0x41u8, 0x56u8, 0x45u8]
}

/// "WEBP"
pub open spec fn webp_tag() -> Seq<u8> {
    seq![0x57u8, 0x45u8, 0x42u8, 0x50u8]
}

/// "AVIX"
pub open spec fn avix_tag() -> Seq<u8> {
    seq![0x41u8, 0x56u8, 0x49u8, 0x58u8]
}

/// A segment header with a plausible size stands at `p`.
pub open spec fn is_segment(d: Seq<u8>, p: int) -> bool {
    holds(d, p, 12) && stands_at(d, p, riff_tag()) && le32(d, p + 4) >= 4
}

/// The length of the segment at `p`: header and data, which is padded to
/// an even length.
pub open spec fn segment_len(d: Seq<u8>, p: int) -> int {
    8 + le32(d, p + 4) + le32(d, p + 4) % 2
}

/// Where the AVIX segments from `end` on end; they are followed up to the
/// longest file.
pub open spec fn avix_end(d: Seq<u8>, start: int, end: int) -> int
    decreases room(end, start + MAX_LEN),
{
    if end - start < MAX_LEN && is_segment(d, end) && stands_at(d, end + 8, avix_tag()) {
        avix_end(d, start, end + segment_len(d, end))
    } else {
        end
    }
}

fn capped(len: u64) -> (r: u64)
    ensures
        r == if len < MAX_LEN {
            len
        } else {
            MAX_LEN
        },
{
    if len < MAX_LEN {
        len
    } else {
        MAX_LEN
    }
}

/// The kinds of segments that are carved.
#[derive(Clone, Copy, PartialEq, Eq, Structural)]
enum Form {
    Avi,
    Wave,
    Webp,
    Avix,
    Other,
}

/// The length and form of the segment at `pos`.
fn riff_segment<R: ReadAt>(r: &mut R, pos: u64) -> (res: io::Result<Option<(u64, Form)>>)
    ensures
        final(r).contents() == old(r).contents(),
        old(r).reliable() ==> final(r).reliable() && res is Ok,
        match res {
            Ok(Some((len, form))) => {
                let d = old(r).contents();
                &&& is_segment(d, pos as int)
                &&& len == segment_len(d, pos as int)
                &&& form == Form::Avi <==> stands_at(d, pos + 8, avi_tag())
                &&& form == Form::Wave <==> stands_at(d, pos + 8, wave_tag())
                &&& form == Form::Webp <==> stands_at(d, pos + 8, webp_tag())
                &&& form == Form::Avix <==> stands_at(d, pos + 8, avix_tag())
            },
            Ok(None) => !is_segment(old(r).contents(), pos as int),
            Err(_) => true,
        },
{
    let hdr: Vec<u8> = match bytes_at(r, pos, 12) {
        Ok(Some(v)) => v,
        Ok(None) => {
            return Ok(None);
        },
        Err(e) => {
            return Err(e);
        },
    };
    let ghost d = r.contents();
    let riff: [u8; 4] = [0x52, 0x49, 0x46, 0x46];
    let avi: [u8; 4] = [0x41, 0x56, 0x49, 0x20];
    let wave: [u8; 4] = [0x57, 0x41, 0x56, 0x45];
    let webp: [u8; 4] = [0x57, 0x45, 0x42, 0x50];
    let avix: [u8; 4] = [0x41, 0x56, 0x49, 0x58];
    proof {
        assert(riff@ =~= riff_tag());
        assert(avi@ =~= avi_tag());
        assert(wave@ =~= wave_tag());
        assert(webp@ =~= webp_tag());
        assert(avix@ =~= avix_tag());
        assert(hdr@.subrange(0, 4) =~= d.subrange(pos as int, pos + 4));
        assert(hdr@.subrange(8, 12) =~= d.subrange(pos + 8, pos + 12));
        assert(avi_tag()[3] != avix_tag()[3] && avi_tag()[0] != wave_tag()[0]);
        assert(wave_tag()[1] != webp_tag()[1] && webp_tag()[0] != avi_tag()[0]);
        assert(avix_tag()[0] != wave_tag()[0]);
    }
    if !is_at(&hdr, 0, &riff) {
        return Ok(None);
    }
    let size: u64 = get_le32(&hdr, 4) as u64;
    if size < 4 {
        return Ok(None);
    }
    let form: Form = if is_at(&hdr, 8, &avi) {
        Form::Avi
    } else if is_at(&hdr, 8, &wave) {
        Form::Wave
    } else if is_at(&hdr, 8, &webp) {
        Form::Webp
    } else if is_at(&hdr, 8, &avix) {
        Form::Avix
    } else {
        Form::Other
    };
    // Chunk data is padded to an even length.
    Ok(Some((8 + size + size % 2, form)))
}

impl Carver for Riff {
    open spec fn signature(&self) -> Signature {
        Signature {
            name: "riff"@,
            extension: "avi"@,
            magics: seq![riff_tag()],
            magic_offset: 0,
            max_len: MAX_LEN as int,
        }
    }

    /// One segment, and for AVI the segments that continue it.
    open spec fn measured(&self, d: Seq<u8>, start: int) -> Measure {
        let len = segment_len(d, start);
        let whole = avix_end(d, start, start + len) - start;
        if !is_segment(d, start) {
            None
        } else if stands_at(d, start + 8, avi_tag()) {
            Some(
                (
                    if whole < MAX_LEN {
                        whole
                    } else {
                        MAX_LEN as int
                    },
                    "avi"@,
                ),
            )
        } else if stands_at(d, start + 8, wave_tag()) {
            Some((len, "wav"@))
        } else if stands_at(d, start + 8, webp_tag()) {
            Some((len, "webp"@))
        } else {
            None
        }
    }

    fn spec(&self) -> (s: CarverSpec) {
        let s = CarverSpec {
            name: "riff",
            extension: "avi",
            magics: &[&[0x52, 0x49, 0x46, 0x46]],
            magic_offset: 0,
            max_len: MAX_LEN,
        };
        assert(s.magics@[0]@ =~= riff_tag());
        assert(s@ =~= self.signature());
        s
    }

    fn measure<R: ReadAt>(&self, r: &mut R, start: u64) -> (res: io::Result<Option<Measured>>) {
        let ghost d = r.contents();
        let (len, form): (u64, Form) = match riff_segment(r, start) {
            Ok(Some(s)) => s,
            Ok(None) => {
                return Ok(None);
            },
            Err(e) => {
                return Err(e);
            },
        };
        if form == Form::Wave {
            return Ok(Some(Measured { len: capped(len), extension: "wav" }));
        }
        if form == Form::Webp {
            return Ok(Some(Measured { len: capped(len), extension: "webp" }));
        }
        if form != Form::Avi {
            // unknown RIFF form: don't carve blindly
            return Ok(None);
        }
        let mut end: u64 = start + len;
        // OpenDML: follow consecutive AVIX segments.
        let mut going: bool = true;
        while going && end - start < MAX_LEN
            invariant
                d == old(r).contents(),
                r.contents() == d,
                old(r).reliable() ==> r.reliable(),
                start <= end <= start + MAX_LEN + 0x1_0000_0010,
                start <= crate::carve::carver::MAX_INPUT,
                avix_end(d, start as int, start + len) == if going {
                    avix_end(d, start as int, end as int)
                } else {
                    end as int
                },
            decreases going as int, room(end as int, start + MAX_LEN),
        {
            match riff_segment(r, end) {
                Ok(Some((n, Form::Avix))) => {
                    end = end + n;
                },
                Ok(_) => {
                    going = false;
                },
                Err(e) => {
                    return Err(e);
                },
            }
        }
        Ok(Some(Measured { len: capped(end - start), extension: "avi" }))
    }
}

} // verus!
