//! The carvers, and end-to-end carving over a synthetic disk with planted
//! media files, including the pipeline from imaging to carving with a
//! rescue map.

use file_rescue::carve::carver::{
    builtin_carvers, read_full, Carver, Measured, ReadAt,
};
use file_rescue::carve::formats::asf::Asf;
use file_rescue::carve::formats::bmp::Bmp;
use file_rescue::carve::formats::gif::Gif;
use file_rescue::carve::formats::isobmff::IsoBmff;
use file_rescue::carve::formats::jpeg::Jpeg;
use file_rescue::carve::formats::matroska::Matroska;
use file_rescue::carve::formats::mpeg::{MpegPs, MpegTs};
use file_rescue::carve::formats::pdf::Pdf;
use file_rescue::carve::formats::png::Png;
use file_rescue::carve::formats::riff::Riff;
use file_rescue::carve::formats::tiff::Tiff;
use file_rescue::carve::report::{count_damaged, count_formats, json_report, text_report};
use file_rescue::carve::{
    carve_scan, next_block, CarveError, CarveEvent, CarveOptions, CarveScan, CarvedFile,
};
use file_rescue::image::sink::MemSink;
use file_rescue::image::source::{BadRegion, FaultySource, MemSource};
use file_rescue::image::{ImagingEngine, ImagingOptions};
use file_rescue::map::{RescueMap, SectorStatus};
use file_rescue::testutil::{
    build_disk, crc32, minimal_heic, minimal_jpeg, minimal_mov, minimal_mp4, minimal_pdf,
    minimal_png, Xorshift,
};
use std::sync::atomic::AtomicBool;

// Fixtures.

const HEADER_GUID: [u8; 16] = [
    0x30, 0x26, 0xB2, 0x75, 0x8E, 0x66, 0xCF, 0x11, 0xA6, 0xD9, 0x00, 0xAA, 0x00, 0x62, 0xCE, 0x6C,
];
const DATA_GUID: [u8; 16] = [
    0x36, 0x26, 0xB2, 0x75, 0x8E, 0x66, 0xCF, 0x11, 0xA6, 0xD9, 0x00, 0xAA, 0x00, 0x62, 0xCE, 0x6C,
];
const SIMPLE_INDEX_GUID: [u8; 16] = [
    0x90, 0x08, 0x00, 0x33, 0xB1, 0xE5, 0xCF, 0x11, 0x89, 0xF4, 0x00, 0xA0, 0xC9, 0x03, 0x49, 0xCB,
];

fn filler(seed: u64, n: usize) -> Vec<u8> {
    let mut v = vec![0u8; n];
    Xorshift(seed).fill(&mut v);
    v
}

fn minimal_bmp(w: u32, h: u32) -> Vec<u8> {
    let row = (w * 3).div_ceil(4) * 4;
    let data = row * h;
    let mut out = b"BM".to_vec();
    out.extend_from_slice(&(54 + data).to_le_bytes());
    out.extend_from_slice(&[0; 4]);
    out.extend_from_slice(&54u32.to_le_bytes());
    out.extend_from_slice(&40u32.to_le_bytes());
    out.extend_from_slice(&w.to_le_bytes());
    out.extend_from_slice(&h.to_le_bytes());
    out.extend_from_slice(&[1, 0, 24, 0]);
    out.extend_from_slice(&[0; 24]);
    out.extend_from_slice(&filler(0xB3B3, data as usize));
    out
}

fn push_subblocks(out: &mut Vec<u8>, data: &[u8]) {
    for block in data.chunks(255) {
        out.push(block.len() as u8);
        out.extend_from_slice(block);
    }
    out.push(0);
}

fn minimal_gif(n: usize) -> Vec<u8> {
    let mut out = b"GIF89a".to_vec();
    out.extend_from_slice(&[16, 0, 16, 0, 0x81, 0, 0]); // global table of 4 colors
    out.extend_from_slice(&[0; 12]);
    out.extend_from_slice(&[0x21, 0xF9]);
    push_subblocks(&mut out, &[0, 0, 0, 0]);
    out.extend_from_slice(&[0x2C, 0, 0, 0, 0, 16, 0, 16, 0, 0x80]); // local table of 2
    out.extend_from_slice(&[0; 6]);
    out.push(8);
    push_subblocks(&mut out, &filler(0x61F, n));
    out.push(0x3B);
    out
}

fn riff(form: &[u8; 4], n: usize) -> Vec<u8> {
    let mut out = b"RIFF".to_vec();
    out.extend_from_slice(&((n + 4) as u32).to_le_bytes());
    out.extend_from_slice(form);
    out.extend_from_slice(&filler(0x21FF, n));
    if n % 2 == 1 {
        out.push(0);
    }
    out
}

fn minimal_avi(n: usize, more: usize) -> Vec<u8> {
    let mut out = riff(b"AVI ", n);
    for _ in 0..more {
        out.extend_from_slice(&riff(b"AVIX", n / 2));
    }
    out
}

fn minimal_wav(n: usize) -> Vec<u8> {
    riff(b"WAVE", n)
}

fn minimal_webp(n: usize) -> Vec<u8> {
    riff(b"WEBP", n)
}

fn minimal_mkv(n: usize, webm: bool) -> Vec<u8> {
    let doctype: &[u8] = if webm { b"webm" } else { b"matroska" };
    let mut header = vec![0x42, 0x82, 0x80 | doctype.len() as u8];
    header.extend_from_slice(doctype);
    let mut out = vec![0x1A, 0x45, 0xDF, 0xA3, 0x80 | header.len() as u8];
    out.extend_from_slice(&header);
    out.extend_from_slice(&[0x18, 0x53, 0x80, 0x67]);
    out.extend_from_slice(&((n as u64) | (1 << 56)).to_be_bytes());
    out.extend_from_slice(&filler(0x3B1, n));
    out
}

fn asf_object(guid: &[u8; 16], n: usize) -> Vec<u8> {
    let mut out = guid.to_vec();
    out.extend_from_slice(&((n + 24) as u64).to_le_bytes());
    out.extend_from_slice(&filler(0xA5F, n));
    out
}

fn minimal_asf(n: usize) -> Vec<u8> {
    let mut out = asf_object(&HEADER_GUID, 100);
    out.extend_from_slice(&asf_object(&DATA_GUID, n));
    out.extend_from_slice(&asf_object(&SIMPLE_INDEX_GUID, 40));
    out
}

fn tiff_u16(le: bool, n: u16) -> [u8; 2] {
    if le {
        n.to_le_bytes()
    } else {
        n.to_be_bytes()
    }
}

fn tiff_u32(le: bool, n: u32) -> [u8; 4] {
    if le {
        n.to_le_bytes()
    } else {
        n.to_be_bytes()
    }
}

fn tiff_entry(out: &mut Vec<u8>, le: bool, tag: u16, typ: u16, count: u32, value: u32) {
    out.extend_from_slice(&tiff_u16(le, tag));
    out.extend_from_slice(&tiff_u16(le, typ));
    out.extend_from_slice(&tiff_u32(le, count));
    out.extend_from_slice(&tiff_u32(le, value));
}

fn minimal_tiff(n: usize, le: bool, cr2: bool) -> Vec<u8> {
    let mut out = if le { b"II".to_vec() } else { b"MM".to_vec() };
    out.extend_from_slice(&tiff_u16(le, 42));
    out.extend_from_slice(&tiff_u32(le, 16));
    out.extend_from_slice(if cr2 { b"CR\x02\0\0\0\0\0" } else { &[0; 8] });
    out.extend_from_slice(&tiff_u16(le, 2));
    let data = 16 + 2 + 2 * 12 + 4;
    tiff_entry(&mut out, le, 273, 4, 1, data);
    tiff_entry(&mut out, le, 279, 4, 1, n as u32);
    out.extend_from_slice(&tiff_u32(le, 0));
    out.extend_from_slice(&filler(0x71FF, n));
    out
}

fn minimal_mpeg_ps(packets: usize) -> Vec<u8> {
    let mut out = Vec::new();
    for i in 0..packets {
        out.extend_from_slice(&[0, 0, 1, 0xBA, 0x44, 0, 4, 0, 4, 1, 0, 0, 3, 0xF8 | (i % 3) as u8]);
        out.extend_from_slice(&vec![0xFF; i % 3]);
        out.extend_from_slice(&[0, 0, 1, 0xE0, 0, 100]);
        out.extend_from_slice(&filler(i as u64 + 1, 100));
    }
    out.extend_from_slice(&[0, 0, 1, 0xB9]);
    out
}

fn minimal_ts(packets: usize) -> Vec<u8> {
    let mut out = Vec::new();
    for i in 0..packets {
        out.push(0x47);
        out.extend_from_slice(&filler(i as u64 + 1, 187));
    }
    out
}

fn minimal_m2ts(packets: usize) -> Vec<u8> {
    let mut out = Vec::new();
    for i in 0..packets {
        out.extend_from_slice(&(i as u32).to_be_bytes());
        out.push(0x47);
        out.extend_from_slice(&filler(i as u64 + 1, 187));
    }
    out
}

fn measure<C: Carver>(c: C, data: &[u8]) -> Option<Measured> {
    let mut r: &[u8] = data;
    c.measure(&mut r, 0).unwrap()
}

// ASF

#[test]
fn measures_header_plus_data() {
    let asf = minimal_asf(20_000);
    let mut padded = asf.clone();
    padded.extend_from_slice(&[3u8; 512]);
    let mut r: &[u8] = &padded;
    let m = Asf.measure(&mut r, 0).unwrap().unwrap();
    assert_eq!(m.len, asf.len() as u64);
    assert_eq!(m.extension, "wmv");
}

#[test]
fn header_without_data_object_is_rejected() {
    let mut data = HEADER_GUID.to_vec();
    data.extend_from_slice(&30u64.to_le_bytes());
    data.extend_from_slice(&[0u8; 64]);
    let mut r: &[u8] = &data;
    assert!(Asf.measure(&mut r, 0).unwrap().is_none());
}

#[test]
fn asf_sizes_are_capped() {
    let mut data = asf_object(&HEADER_GUID, 10);
    data.extend_from_slice(&DATA_GUID);
    data.extend_from_slice(&u64::MAX.to_le_bytes());
    assert_eq!(measure(Asf, &data).unwrap().len, 16 << 30);
}

// BMP

#[test]
fn measures_declared_size() {
    let bmp = minimal_bmp(64, 64);
    let mut padded = bmp.clone();
    padded.extend_from_slice(&[9u8; 777]);
    let mut r: &[u8] = &padded;
    let m = Bmp.measure(&mut r, 0).unwrap().unwrap();
    assert_eq!(m.len, bmp.len() as u64);
}

#[test]
fn rejects_bogus_headers() {
    let junk = b"BM\xFF\xFF\xFF\xFF\x00\x00\x00\x00\x00\x00\x00\x00\x99\x00\x00\x00".to_vec();
    let mut r: &[u8] = &junk;
    assert!(Bmp.measure(&mut r, 0).unwrap().is_none());
}

// GIF

#[test]
fn gif_measures_exact_length() {
    let gif = minimal_gif(5000);
    let mut padded = gif.clone();
    padded.extend_from_slice(&[0x42; 512]);
    let mut r: &[u8] = &padded;
    let m = Gif.measure(&mut r, 0).unwrap().unwrap();
    assert_eq!(m.len, gif.len() as u64);
}

#[test]
fn rejects_header_without_blocks() {
    let mut junk = b"GIF89a".to_vec();
    junk.extend_from_slice(&[0xFFu8; 64]);
    let mut r: &[u8] = &junk;
    assert!(Gif.measure(&mut r, 0).unwrap().is_none());
}

#[test]
fn gif_without_an_image_is_rejected() {
    let mut gif = b"GIF87a".to_vec();
    gif.extend_from_slice(&[16, 0, 16, 0, 0, 0, 0, 0x3B]);
    assert!(measure(Gif, &gif).is_none());
}

// ISO-BMFF

#[test]
fn measures_exact_mp4_length() {
    for (moov_first, large) in [(false, false), (true, false), (false, true)] {
        let mp4 = minimal_mp4(100_000, moov_first, large);
        let mut padded = mp4.clone();
        padded.extend_from_slice(&[0xAB; 4096]); // trailing garbage
        let m = measure(IsoBmff, &padded).expect("should match");
        assert_eq!(
            m.len,
            mp4.len() as u64,
            "moov_first={moov_first} large={large}"
        );
        assert_eq!(m.extension, "mp4");
    }
}

#[test]
fn detects_mov_and_heic_brands() {
    let mov = minimal_mov(5000);
    let m = measure(IsoBmff, &mov).unwrap();
    assert_eq!(m.extension, "mov");
    assert_eq!(m.len, mov.len() as u64);

    let heic = minimal_heic(3000);
    let m = measure(IsoBmff, &heic).unwrap();
    assert_eq!(m.extension, "heic");
    assert_eq!(m.len, heic.len() as u64);
}

#[test]
fn stops_at_next_concatenated_file() {
    let a = minimal_mp4(10_000, false, false);
    let b = minimal_mp4(5_000, false, false);
    let mut disk = a.clone();
    disk.extend_from_slice(&b);
    let m = measure(IsoBmff, &disk).unwrap();
    assert_eq!(m.len, a.len() as u64);
}

#[test]
fn truncated_input_keeps_declared_extent() {
    let mp4 = minimal_mp4(100_000, false, false);
    let cut = &mp4[..mp4.len() / 2];
    let m = measure(IsoBmff, cut).expect("truncated file still carved");
    // mdat declared past EOF: extent runs to (at least) end of input.
    assert!(m.len >= cut.len() as u64);
}

#[test]
fn rejects_bare_ftyp_string_in_garbage() {
    let mut junk = vec![0u8; 64];
    junk[4..8].copy_from_slice(b"ftyp"); // size32 = 0: invalid ftyp
    assert!(measure(IsoBmff, &junk).is_none());
}

#[test]
fn avif_has_its_extension_and_a_payload_is_needed() {
    let mut f = minimal_heic(100);
    f[8..12].copy_from_slice(b"avif");
    assert_eq!(measure(IsoBmff, &f).unwrap().extension, "avif");
    // ftyp and free alone hold nothing.
    let mp4 = minimal_mp4(100, false, false);
    assert!(measure(IsoBmff, &mp4[..24 + 16]).is_none());
}

#[test]
fn box_files_are_not_longer_than_allowed() {
    let mut data = vec![0, 0, 0, 16];
    data.extend_from_slice(b"ftypisom");
    data.extend_from_slice(&[0, 0, 0, 0, 0, 0, 0, 1]);
    data.extend_from_slice(b"mdat");
    data.extend_from_slice(&(1u64 << 40).to_be_bytes());
    assert_eq!(measure(IsoBmff, &data).unwrap().len, 64 << 30);
    assert_eq!(IsoBmff.spec().max_len, 64 << 30);
}

// JPEG

#[test]
fn jpeg_measures_exact_length() {
    let jpg = minimal_jpeg(200_000); // larger than one scan buffer
    let mut padded = jpg.clone();
    padded.extend_from_slice(&[0x11; 999]);
    let m = measure(Jpeg, &padded).unwrap();
    assert_eq!(m.len, jpg.len() as u64);
}

#[test]
fn skips_ffd9_inside_marker_segments() {
    // An APP1 segment containing FF D9 (like an EXIF thumbnail EOI)
    // must be skipped by its declared length.
    let mut data = vec![0xFF, 0xD8];
    let payload = [0x00, 0xFF, 0xD9, 0x00];
    data.extend_from_slice(&[0xFF, 0xE1]);
    data.extend_from_slice(&((payload.len() + 2) as u16).to_be_bytes());
    data.extend_from_slice(&payload);
    // then a real tail: SOS + entropy + EOI
    data.extend_from_slice(&[0xFF, 0xDA, 0x00, 0x08, 1, 1, 0, 0, 63, 0]);
    data.extend_from_slice(&[0x12, 0x34, 0x56]);
    data.extend_from_slice(&[0xFF, 0xD9]);
    let m = measure(Jpeg, &data).unwrap();
    assert_eq!(m.len, data.len() as u64);
}

#[test]
fn rejects_broken_structure() {
    let mut jpg = minimal_jpeg(100);
    jpg[3] = 0x00; // corrupt the APP0 marker area
    // Depending on where corruption lands this may parse or not, so
    // build a clearly broken one instead:
    let broken = [0xFF, 0xD8, 0x00, 0x00, 0x00, 0x00, 0x00, 0x00];
    assert!(measure(Jpeg, &broken).is_none());
}

#[test]
fn unterminated_scan_returns_none() {
    let jpg = minimal_jpeg(4096);
    let cut = &jpg[..jpg.len() - 2]; // drop the EOI
    assert!(measure(Jpeg, cut).is_none());
}

#[test]
fn the_end_marker_may_lie_across_pieces() {
    // The marker is found wherever it falls in the pieces that are read.
    for extra in [0usize, 1, 2, 3] {
        let head = minimal_jpeg(0).len() - 2;
        let jpg = minimal_jpeg(0x10000 - 2 + extra);
        let m = measure(Jpeg, &jpg).unwrap();
        assert_eq!(m.len, (head + 0x10000 - 2 + extra + 2) as u64);
    }
}

#[test]
fn jpeg_without_scan_data_ends_at_its_end_marker() {
    let data = [0xFF, 0xD8, 0xFF, 0xD0, 0xFF, 0xD9, 0x00, 0x00];
    assert_eq!(measure(Jpeg, &data).unwrap().len, 6);
}

// Matroska

#[test]
fn measures_exact_length_and_doctype() {
    for (webm, ext) in [(false, "mkv"), (true, "webm")] {
        let f = minimal_mkv(30_000, webm);
        let mut padded = f.clone();
        padded.extend_from_slice(&[5u8; 300]);
        let mut r: &[u8] = &padded;
        let m = Matroska.measure(&mut r, 0).unwrap().unwrap();
        assert_eq!(m.len, f.len() as u64);
        assert_eq!(m.extension, ext);
    }
}

#[test]
fn rejects_non_matroska_ebml() {
    let mut data = b"\x1A\x45\xDF\xA3".to_vec();
    data.push(0x84); // size 4
    data.extend_from_slice(b"junk");
    data.extend_from_slice(&[0u8; 32]);
    let mut r: &[u8] = &data;
    assert!(Matroska.measure(&mut r, 0).unwrap().is_none());
}

#[test]
fn matroska_sizes_of_all_widths() {
    let header = [0x1A, 0x45, 0xDF, 0xA3, 0x84, b'w', b'e', b'b', b'm'];
    let segment = [0x18, 0x53, 0x80, 0x67];
    for width in 1..=8usize {
        let mut f = header.to_vec();
        f.extend_from_slice(&segment);
        let size: u64 = 100 | (1 << (7 * width));
        f.extend_from_slice(&size.to_be_bytes()[8 - width..]);
        let m = measure(Matroska, &f).unwrap();
        assert_eq!(m.len, (f.len() + 100) as u64, "width {width}");
        // All ones: the size is not known.
        let mut f = header.to_vec();
        f.extend_from_slice(&segment);
        let size: u64 = ((1u128 << (7 * width + 1)) - 1) as u64;
        f.extend_from_slice(&size.to_be_bytes()[8 - width..]);
        assert!(measure(Matroska, &f).is_none(), "width {width}");
    }
}

// MPEG

#[test]
fn ps_walks_to_end_code() {
    let ps = minimal_mpeg_ps(30);
    let mut padded = ps.clone();
    padded.extend_from_slice(&[0x55; 700]);
    let mut r: &[u8] = &padded;
    let m = MpegPs.measure(&mut r, 0).unwrap().unwrap();
    assert_eq!(m.len, ps.len() as u64);
}

#[test]
fn ps_rejects_lone_start_code() {
    let mut junk = b"\x00\x00\x01\xBA".to_vec();
    junk.extend_from_slice(&[0xEE; 64]);
    let mut r: &[u8] = &junk;
    assert!(MpegPs.measure(&mut r, 0).unwrap().is_none());
}

#[test]
fn ps_follows_older_pack_headers() {
    let mut ps = Vec::new();
    for _ in 0..4 {
        ps.extend_from_slice(&[0, 0, 1, 0xBA, 0x21, 0, 1, 0, 1, 0x80, 0, 1]);
    }
    ps.extend_from_slice(&[0, 0, 1, 0xB9, 0x12, 0x34]);
    assert_eq!(measure(MpegPs, &ps).unwrap().len, 4 * 12 + 4);
}

#[test]
fn ts_extends_while_sync_holds() {
    let ts = minimal_ts(300);
    let mut padded = ts.clone();
    padded.extend_from_slice(&[0x00; 4096]);
    let mut r: &[u8] = &padded;
    let m = MpegTs::ts188().measure(&mut r, 0).unwrap().unwrap();
    assert_eq!(m.len, ts.len() as u64);
    assert_eq!(m.extension, "ts");
}

#[test]
fn m2ts_uses_offset_sync() {
    let m2ts = minimal_m2ts(300);
    let mut padded = m2ts.clone();
    padded.extend_from_slice(&[0x00; 4096]);
    let mut r: &[u8] = &padded;
    let m = MpegTs::m2ts192().measure(&mut r, 0).unwrap().unwrap();
    assert_eq!(m.len, m2ts.len() as u64);
    assert_eq!(m.extension, "m2ts");
}

#[test]
fn short_sync_runs_are_rejected() {
    let ts = minimal_ts(4); // fewer than MIN_PACKETS
    let mut r: &[u8] = &ts;
    assert!(MpegTs::ts188().measure(&mut r, 0).unwrap().is_none());
}

#[test]
fn sync_runs_count_to_where_sync_is_lost() {
    for n in [15usize, 16, 100, 255, 256, 257] {
        let mut ts = minimal_ts(n);
        let len = ts.len() as u64;
        ts.extend_from_slice(&[0; 1000]);
        match measure(MpegTs::ts188(), &ts) {
            Some(m) => assert!(n >= 16 && m.len == len),
            None => assert!(n < 16),
        }
    }
}

// PDF

#[test]
fn ends_at_last_eof() {
    let pdf = minimal_pdf(10_000);
    let mut padded = pdf.clone();
    padded.extend_from_slice(&[b'x'; 2048]);
    let m = measure(Pdf, &padded).unwrap();
    assert_eq!(m.len, pdf.len() as u64);
}

#[test]
fn does_not_swallow_next_pdf() {
    let a = minimal_pdf(1000);
    let b = minimal_pdf(500);
    let mut disk = a.clone();
    disk.extend_from_slice(&b);
    let m = measure(Pdf, &disk).unwrap();
    assert_eq!(m.len, a.len() as u64);
}

#[test]
fn no_eof_is_rejected() {
    let data = b"%PDF-1.4\nsome content without terminator".to_vec();
    assert!(measure(Pdf, &data).is_none());
}

#[test]
fn pdf_takes_in_one_line_end() {
    for (tail, n) in [("\r\nx", 2), ("\rx", 1), ("\nx", 1), ("x", 0), ("", 0)] {
        let text = format!("%PDF-1.4 %%EOF{tail}");
        assert_eq!(measure(Pdf, text.as_bytes()).unwrap().len, 14 + n);
    }
}

/// A PDF whose last end marker, with a line end behind it, ends at `end`;
/// the rest of the input is zero.
struct LongPdf {
    end: u64,
}

impl ReadAt for LongPdf {
    fn total_len(&self) -> u64 {
        self.end + 100
    }

    fn read_at(&mut self, offset: u64, buf: &mut [u8]) -> std::io::Result<usize> {
        let n = buf.len().min(self.total_len().saturating_sub(offset) as usize);
        buf[..n].fill(0);
        for (at, bytes) in [(0, &b"%PDF-"[..]), (self.end - 5, &b"%%EOF\r\n"[..])] {
            for (i, b) in bytes.iter().enumerate() {
                let p = at + i as u64;
                if p >= offset && p < offset + n as u64 {
                    buf[(p - offset) as usize] = *b;
                }
            }
        }
        Ok(n)
    }
}

#[test]
fn pdfs_are_not_longer_than_allowed() {
    let max = Pdf.spec().max_len;
    for (left, line) in [(0, 0), (1, 1), (2, 2), (3, 2)] {
        let mut r = LongPdf { end: max - left };
        let m = Pdf.measure(&mut r, 0).unwrap().unwrap();
        assert_eq!(m.len, max - left + line);
    }
}

// PNG

#[test]
fn png_measures_exact_length() {
    let png = minimal_png(50_000);
    let mut padded = png.clone();
    padded.extend_from_slice(&[0x77; 4096]);
    let m = measure(Png, &padded).unwrap();
    assert_eq!(m.len, png.len() as u64);
}

#[test]
fn carves_partial_when_chain_breaks() {
    let png = minimal_png(50_000);
    let mut broken = png.clone();
    // Corrupt the IEND chunk area with garbage so the chain breaks
    // after IDAT.
    let at = png.len() - 12;
    broken[at..].fill(0x00);
    let m = measure(Png, &broken).expect("partial carve");
    assert!(m.len > 8);
    assert!(m.len <= png.len() as u64);
}

#[test]
fn rejects_signature_without_ihdr() {
    let mut junk = b"\x89PNG\r\n\x1a\n".to_vec();
    junk.extend_from_slice(&[0u8; 64]);
    assert!(measure(Png, &junk).is_none());
}

#[test]
fn cut_off_png_is_carved_to_the_end() {
    let png = minimal_png(1000);
    let cut = &png[..500];
    assert_eq!(measure(Png, cut).unwrap().len, 500);
    // Without image data there is nothing to carve.
    assert!(measure(Png, &png[..8 + 25]).is_none());
}

// RIFF

#[test]
fn avi_with_avix_extension_is_one_file() {
    let avi = minimal_avi(10_000, 2); // main + 2 AVIX segments
    let mut padded = avi.clone();
    padded.extend_from_slice(&[7u8; 999]);
    let m = measure(Riff, &padded).unwrap();
    assert_eq!(m.len, avi.len() as u64);
    assert_eq!(m.extension, "avi");
}

#[test]
fn wav_and_webp_forms() {
    let wav = minimal_wav(3000);
    let m = measure(Riff, &wav).unwrap();
    assert_eq!(m.len, wav.len() as u64);
    assert_eq!(m.extension, "wav");

    let webp = minimal_webp(2000);
    let m = measure(Riff, &webp).unwrap();
    assert_eq!(m.len, webp.len() as u64);
    assert_eq!(m.extension, "webp");
}

#[test]
fn unknown_form_is_rejected() {
    let mut data = b"RIFF".to_vec();
    data.extend_from_slice(&100u32.to_le_bytes());
    data.extend_from_slice(b"XXXX");
    data.extend_from_slice(&[0u8; 100]);
    assert!(measure(Riff, &data).is_none());
}

#[test]
fn odd_riff_sizes_are_padded() {
    let wav = minimal_wav(3001);
    assert_eq!(wav.len(), 8 + 4 + 3001 + 1);
    assert_eq!(measure(Riff, &wav).unwrap().len, wav.len() as u64);
}

// TIFF

#[test]
fn extent_covers_strip_data() {
    for le in [true, false] {
        let tif = minimal_tiff(20_000, le, false);
        let mut padded = tif.clone();
        padded.extend_from_slice(&[1u8; 400]);
        let mut r: &[u8] = &padded;
        let m = Tiff.measure(&mut r, 0).unwrap().unwrap();
        assert_eq!(m.len, tif.len() as u64, "le={le}");
        assert_eq!(m.extension, "tif");
    }
}

#[test]
fn cr2_gets_its_extension() {
    let cr2 = minimal_tiff(10_000, true, true);
    let mut r: &[u8] = &cr2;
    let m = Tiff.measure(&mut r, 0).unwrap().unwrap();
    assert_eq!(m.extension, "cr2");
}

#[test]
fn bare_magic_in_garbage_is_rejected() {
    let mut junk = b"II*\x00".to_vec();
    junk.extend_from_slice(&[0u8; 60]);
    let mut r: &[u8] = &junk;
    assert!(Tiff.measure(&mut r, 0).unwrap().is_none());
}

#[test]
fn tiff_follows_sub_directories() {
    // IFD0 at 8 with an Exif IFD at 100 and a list of two sub-IFDs.
    let mut f = b"II*\0".to_vec();
    f.extend_from_slice(&8u32.to_le_bytes());
    f.extend_from_slice(&2u16.to_le_bytes());
    tiff_entry(&mut f, true, 0x8769, 4, 1, 100);
    tiff_entry(&mut f, true, 0x014A, 4, 2, 200);
    f.extend_from_slice(&0u32.to_le_bytes());
    f.resize(100, 0);
    // Exif: one out-of-line value of 50 shorts at 600.
    f.extend_from_slice(&1u16.to_le_bytes());
    tiff_entry(&mut f, true, 0x1234, 3, 50, 600);
    f.extend_from_slice(&0u32.to_le_bytes());
    f.resize(200, 0);
    f.extend_from_slice(&300u32.to_le_bytes());
    f.extend_from_slice(&400u32.to_le_bytes());
    f.resize(300, 0);
    // Sub-IFD with two strips of shorts, inline.
    f.extend_from_slice(&2u16.to_le_bytes());
    tiff_entry(&mut f, true, 273, 3, 2, 700 | (800 << 16));
    tiff_entry(&mut f, true, 279, 3, 2, 10 | (33 << 16));
    f.extend_from_slice(&0u32.to_le_bytes());
    f.resize(400, 0);
    // A directory that leads back to the first one.
    f.extend_from_slice(&1u16.to_le_bytes());
    tiff_entry(&mut f, true, 1, 1, 1, 0);
    f.extend_from_slice(&8u32.to_le_bytes());
    f.resize(2000, 0);
    assert_eq!(measure(Tiff, &f).unwrap().len, 833);
    // What does not fit the input is not counted.
    assert_eq!(measure(Tiff, &f[..820]).unwrap().len, 710);
}

// Reading

/// Hands out at most three bytes at a time, and none from `bad` on.
struct Slow<'a> {
    data: &'a [u8],
    bad: u64,
}

impl ReadAt for Slow<'_> {
    fn total_len(&self) -> u64 {
        self.data.len() as u64
    }

    fn read_at(&mut self, offset: u64, buf: &mut [u8]) -> std::io::Result<usize> {
        if offset + buf.len() as u64 > self.bad {
            return Err(std::io::Error::new(std::io::ErrorKind::Other, "bad"));
        }
        let n = buf.len().min(3);
        let mut r: &[u8] = self.data;
        r.read_at(offset, &mut buf[..n])
    }
}

#[test]
fn read_full_reads_what_there_is() {
    let data = filler(5, 100);
    let mut slow = Slow {
        data: &data,
        bad: 1000,
    };
    let mut buf = vec![0u8; 20];
    assert_eq!(read_full(&mut slow, 10, &mut buf).unwrap(), 20);
    assert_eq!(buf, data[10..30].to_vec());
    assert_eq!(read_full(&mut slow, 90, &mut buf).unwrap(), 10);
    assert_eq!(buf[..10], data[90..]);
    assert_eq!(buf[10..], data[20..30], "the rest stays as it was");
    assert_eq!(read_full(&mut slow, 200, &mut buf).unwrap(), 0);
    slow.bad = 15;
    assert!(read_full(&mut slow, 10, &mut buf).is_err());
}

#[test]
fn short_reads_do_not_change_the_measure() {
    let png = minimal_png(500);
    let mut slow = Slow {
        data: &png,
        bad: 10_000,
    };
    assert_eq!(
        Png.measure(&mut slow, 0).unwrap().unwrap().len,
        png.len() as u64
    );
    slow.bad = 30;
    assert!(Png.measure(&mut slow, 0).is_err());
}

#[test]
fn builtin_carvers_in_their_order() {
    let names: Vec<&str> = builtin_carvers().iter().map(|c| c.spec().name).collect();
    assert_eq!(
        names,
        vec![
            "mp4", "riff", "mkv", "asf", "png", "gif", "bmp", "tiff", "jpeg", "mpg", "ts", "m2ts",
            "pdf"
        ]
    );
    let asf = Asf.spec();
    assert_eq!(asf.magics[0], &HEADER_GUID[..]);
    assert_eq!(asf.extension, "wmv");
    assert_eq!(asf.max_len, 16 << 30);
    assert_eq!(IsoBmff.spec().magic_offset, 4);
    assert_eq!(IsoBmff.spec().magics[0], &b"ftyp"[..]);
    assert_eq!(Gif.spec().magics.len(), 2);
    assert_eq!(MpegTs::m2ts192().spec().magic_offset, 4);
    assert_eq!(Tiff.spec().max_len, 2 << 30);
}

// Scanning a disk

struct Plant {
    offset: u64,
    data: Vec<u8>,
    name: &'static str,
}

fn plant(offset: u64, data: Vec<u8>, name: &'static str) -> Plant {
    Plant { offset, data, name }
}

fn plants() -> Vec<Plant> {
    vec![
        plant(0x1000, minimal_jpeg(30_000), "jpeg"),
        plant(0x40000, minimal_png(20_000), "png"),
        // Straddles the 4 MiB chunk boundary on purpose.
        plant(
            4 * 1024 * 1024 - 0x2000,
            minimal_mp4(1_000_000, false, false),
            "mp4",
        ),
        plant(0x600000, minimal_mov(50_000), "mp4"), // same carver, .mov extension
        plant(0x700000, minimal_heic(40_000), "mp4"),
        plant(0x800000, minimal_pdf(10_000), "pdf"),
        plant(0x900000, minimal_bmp(64, 64), "bmp"),
        plant(0x920000, minimal_gif(5_000), "gif"),
        plant(0x940000, minimal_avi(20_000, 1), "riff"),
        plant(0x980000, minimal_mkv(30_000, true), "mkv"),
        plant(0x9C0000, minimal_asf(20_000), "asf"),
        plant(0xA00000, minimal_tiff(20_000, true, false), "tiff"),
        plant(0xA40000, minimal_mpeg_ps(50), "mpg"),
        plant(0xA60000, minimal_m2ts(300), "m2ts"),
    ]
}

fn build(plants: &[Plant], size: usize) -> Vec<u8> {
    let spec: Vec<(u64, &[u8])> = plants.iter().map(|p| (p.offset, &p.data[..])).collect();
    build_disk(size, &spec)
}

fn scan(disk: &[u8], map: Option<&RescueMap>) -> Vec<CarvedFile> {
    let mut r: &[u8] = disk;
    carve_scan(
        &mut r,
        map,
        &CarveOptions::default(),
        &mut |_: u64, _: usize| {},
    )
    .unwrap()
}

fn extract(disk: &[u8], f: &CarvedFile) -> Vec<u8> {
    let mut r: &[u8] = disk;
    let mut out = Vec::new();
    while (out.len() as u64) < f.len {
        let block = next_block(&mut r, f.offset, f.len, out.len() as u64).unwrap();
        out.extend_from_slice(&block);
    }
    out
}

#[test]
fn extracts_all_planted_files_byte_exact() {
    let plants = plants();
    let disk = build(&plants, 12 * 1024 * 1024);
    let found = scan(&disk, None);
    assert_eq!(found.len(), plants.len(), "found: {found:?}");
    for p in &plants {
        let f = found
            .iter()
            .find(|f| f.offset == p.offset)
            .unwrap_or_else(|| panic!("no file found at 0x{:X}", p.offset));
        assert_eq!(f.len, p.data.len() as u64, "wrong length for {}", p.name);
        assert_eq!(f.format, p.name);
        assert!(!f.damaged);
        let extracted = extract(&disk, f);
        assert_eq!(extracted, p.data, "content mismatch for {}", p.name);
    }
}

#[test]
fn video_is_extracted_whole_not_fragmented() {
    // A large video must come out as ONE file with the exact declared
    // length.
    let mp4 = minimal_mp4(8_000_000, false, false);
    let mp4_len = mp4.len();
    let disk = build_disk(16 * 1024 * 1024, &[(0x100000, &mp4[..])]);
    let found = scan(&disk, None);
    let videos: Vec<_> = found.iter().filter(|f| f.format == "mp4").collect();
    assert_eq!(videos.len(), 1, "video must not be split: {found:?}");
    assert_eq!(videos[0].len, mp4_len as u64);
    let extracted = extract(&disk, videos[0]);
    assert_eq!(extracted, mp4);
}

#[test]
fn extensions_follow_brand() {
    let plants = plants();
    let disk = build(&plants, 12 * 1024 * 1024);
    let found = scan(&disk, None);
    let ext_of = |off: u64| {
        let name = &found.iter().find(|f| f.offset == off).unwrap().name;
        name.split('.').last().unwrap().to_string()
    };
    assert_eq!(ext_of(0x600000), "mov");
    assert_eq!(ext_of(0x700000), "heic");
    assert_eq!(ext_of(0x1000), "jpg");
    assert_eq!(ext_of(0x940000), "avi");
    assert_eq!(ext_of(0x980000), "webm");
    assert_eq!(ext_of(0x9C0000), "wmv");
    assert_eq!(ext_of(0xA00000), "tif");
    assert_eq!(ext_of(0xA60000), "m2ts");
    assert_eq!(found[0].name, "f0000001000.jpg");
}

#[test]
fn map_flags_files_overlapping_bad_regions_as_damaged() {
    let plants = plants();
    let disk = build(&plants, 12 * 1024 * 1024);
    let mut map = RescueMap::new_untried(disk.len() as u64);
    map.mark(0, disk.len() as u64, SectorStatus::Rescued);
    // A bad area inside the big MP4's mdat.
    let mp4_off = 4 * 1024 * 1024 - 0x2000;
    map.mark(mp4_off + 0x8000, 0x400, SectorStatus::Bad);
    let found = scan(&disk, Some(&map));
    let mp4 = found.iter().find(|f| f.offset == mp4_off).unwrap();
    assert!(mp4.damaged, "file over a bad region must be flagged");
    let jpeg = found.iter().find(|f| f.offset == 0x1000).unwrap();
    assert!(!jpeg.damaged);
}

#[test]
fn map_skips_signatures_in_unrescued_regions() {
    let plants = plants();
    let disk = build(&plants, 12 * 1024 * 1024);
    let mut map = RescueMap::new_untried(disk.len() as u64);
    map.mark(0, disk.len() as u64, SectorStatus::Rescued);
    // Pretend the JPEG's header sector was never rescued.
    map.mark(0x1000, 512, SectorStatus::NonTried);
    let found = scan(&disk, Some(&map));
    assert!(
        !found.iter().any(|f| f.offset == 0x1000),
        "unrescued header must not be carved"
    );
}

#[test]
fn format_filter_restricts_carvers() {
    let plants = plants();
    let disk = build(&plants, 12 * 1024 * 1024);
    let mut r: &[u8] = &disk[..];
    let opts = CarveOptions {
        formats: Some(vec!["pdf".into()]),
        ..Default::default()
    };
    let found = carve_scan(&mut r, None, &opts, &mut |_: u64, _: usize| {}).unwrap();
    assert_eq!(found.len(), 1);
    assert_eq!(found[0].format, "pdf");
}

#[test]
fn reports_are_written() {
    let plants = plants();
    let disk = build(&plants, 12 * 1024 * 1024);
    let found = scan(&disk, None);
    let txt = text_report(&found);
    assert!(txt.contains("mp4"));
    let json = json_report(&found);
    assert!(json.contains("\"format\": \"pdf\""));
}

#[test]
fn imaging_then_carving_pipeline() {
    let plants = plants();
    let disk = build(&plants, 12 * 1024 * 1024);
    let mp4_off = 4 * 1024 * 1024 - 0x2000;
    // Bad sectors inside the big MP4 and inside filler.
    let src = FaultySource::new(
        MemSource::new(disk.clone(), 512),
        vec![
            BadRegion::forever(mp4_off + 0x10000..mp4_off + 0x10400),
            BadRegion::forever(0x200000..0x201000),
        ],
    );
    let mut map = RescueMap::new_untried(disk.len() as u64);
    let mut engine = ImagingEngine::new(
        src,
        MemSink::default(),
        ImagingOptions {
            cluster_size: 65536,
            ..Default::default()
        },
    );
    let stop = AtomicBool::new(false);
    let summary = engine
        .run(&mut map, &stop, &mut |_: &RescueMap| {})
        .unwrap();
    assert_eq!(summary.bad_bytes, 0x400 + 0x1000);

    let image = std::mem::take(&mut engine.sink.data);
    let found = scan(&image, Some(&map));
    // The MP4 still comes out whole (declared length), flagged damaged.
    let mp4 = found.iter().find(|f| f.offset == mp4_off).unwrap();
    assert_eq!(mp4.len, plants[2].data.len() as u64);
    assert!(mp4.damaged);
    // Files untouched by bad sectors are intact and not flagged.
    let jpeg = found.iter().find(|f| f.offset == 0x1000).unwrap();
    assert!(!jpeg.damaged);
    let extracted = extract(&image, jpeg);
    assert_eq!(extracted, plants[0].data);
}

#[test]
fn files_do_not_overlap_and_lie_on_the_alignment() {
    let plants = plants();
    let disk = build(&plants, 12 * 1024 * 1024);
    let found = scan(&disk, None);
    for pair in found.windows(2) {
        assert!(pair[0].offset + pair[0].len <= pair[1].offset);
    }
    assert!(found.iter().all(|f| f.offset % 512 == 0));
}

#[test]
fn a_map_without_gaps_changes_nothing() {
    let plants = plants();
    let disk = build(&plants, 12 * 1024 * 1024);
    let mut map = RescueMap::new_untried(disk.len() as u64);
    map.mark(0, disk.len() as u64, SectorStatus::Rescued);
    let with = scan(&disk, Some(&map));
    let without = scan(&disk, None);
    assert_eq!(with.len(), without.len());
    for (a, b) in with.iter().zip(&without) {
        assert_eq!((a.offset, a.len, a.damaged), (b.offset, b.len, b.damaged));
    }
}

#[test]
fn unaligned_files_need_a_finer_scan() {
    let png = minimal_png(100);
    let mut disk = vec![0u8; 5000];
    disk[1001..1001 + png.len()].copy_from_slice(&png);
    assert!(scan(&disk, None).is_empty());
    let wide = CarveOptions {
        align: u64::MAX,
        formats: None,
    };
    for input in [&disk[1001..], &disk[1000..], &disk[..0]] {
        let mut r: &[u8] = input;
        let found = carve_scan(&mut r, None, &wide, &mut |_: u64, _: usize| {}).unwrap();
        assert_eq!(found.len(), (input.len() == disk.len() - 1001) as usize);
    }
    for align in [0, 1, 7, 1001] {
        let mut r: &[u8] = &disk;
        let opts = CarveOptions {
            align,
            formats: None,
        };
        let found = carve_scan(&mut r, None, &opts, &mut |_: u64, _: usize| {}).unwrap();
        assert_eq!(found.len(), 1, "align {align}");
        assert_eq!(found[0].offset, 1001);
    }
}

#[test]
fn truncated_files_are_flagged() {
    let mp4 = minimal_mp4(100_000, false, false);
    let cut = &mp4[..50_000];
    let found = scan(cut, None);
    assert_eq!(found.len(), 1);
    assert!(found[0].truncated);
    assert_eq!(found[0].len, 50_000);
}

#[test]
fn unknown_formats_and_failing_reads() {
    let disk = vec![0u8; 1000];
    let mut r: &[u8] = &disk;
    let opts = CarveOptions {
        align: 512,
        formats: Some(vec!["nope".to_string()]),
    };
    assert!(matches!(
        carve_scan(&mut r, None, &opts, &mut |_: u64, _: usize| {}),
        Err(CarveError::NoCarvers)
    ));
    assert_eq!(
        CarveError::NoCarvers.message(),
        Some("no carvers selected (check --formats)")
    );
    let mut slow = Slow {
        data: &disk,
        bad: 100,
    };
    assert!(matches!(
        carve_scan(
            &mut slow,
            None,
            &CarveOptions::default(),
            &mut |_: u64, _: usize| {}
        ),
        Err(CarveError::Io(_))
    ));
}

#[test]
fn progress_is_reported_once_per_chunk() {
    let disk = vec![0u8; 9 * 1024 * 1024];
    let mut r: &[u8] = &disk;
    let mut seen = Vec::new();
    carve_scan(
        &mut r,
        None,
        &CarveOptions::default(),
        &mut |scanned: u64, found: usize| seen.push((scanned, found)),
    )
    .unwrap();
    assert_eq!(
        seen,
        vec![(4 << 20, 0), (8 << 20, 0), (9 << 20, 0)]
    );
}

#[test]
fn a_scan_goes_step_by_step() {
    let png = minimal_png(100);
    let mut disk = vec![0u8; 4096];
    disk[512..512 + png.len()].copy_from_slice(&png);
    let mut r: &[u8] = &disk;
    let mut s = CarveScan::new(4096, &CarveOptions::default()).unwrap();
    match s.next(&mut r, None).unwrap() {
        CarveEvent::File(f) => assert_eq!((f.offset, f.len), (512, png.len() as u64)),
        other => panic!("{other:?}"),
    }
    assert!(matches!(
        s.next(&mut r, None).unwrap(),
        CarveEvent::Progress {
            scanned: 4096,
            found: 1
        }
    ));
    assert!(matches!(s.next(&mut r, None).unwrap(), CarveEvent::Done));
}

// Reports

#[test]
fn report_texts_are_exact() {
    let files = vec![
        CarvedFile {
            offset: 0x1000,
            len: 30_000,
            format: "jpeg",
            name: "f0000001000.jpg".to_string(),
            damaged: false,
            truncated: false,
        },
        CarvedFile {
            offset: 0x12345678,
            len: 5,
            format: "m2ts",
            name: "a\"b\\c".to_string(),
            damaged: true,
            truncated: true,
        },
        CarvedFile {
            offset: 0,
            len: 12_345_678_901,
            format: "png",
            name: "x".to_string(),
            damaged: true,
            truncated: false,
        },
    ];
    assert_eq!(
        text_report(&files),
        "offset      size        format  flags     file\n\
         0x000001000       30000 jpeg              f0000001000.jpg\n\
         0x012345678           5 m2ts    damaged truncated a\"b\\c\n\
         0x000000000 12345678901 png     damaged   x\n"
    );
    assert_eq!(
        json_report(&files[..2]),
        "[\n  {\"offset\": 4096, \"size\": 30000, \"format\": \"jpeg\", \"damaged\": false, \
         \"truncated\": false, \"file\": \"f0000001000.jpg\"},\n  \
         {\"offset\": 305419896, \"size\": 5, \"format\": \"m2ts\", \"damaged\": true, \
         \"truncated\": true, \"file\": \"a\\\"b\\\\c\"}\n]\n"
    );
    assert_eq!(json_report(&[]), "[\n]\n");
    assert_eq!(count_damaged(&files), 2);
    assert_eq!(
        count_formats(&files),
        vec![("jpeg", 1), ("m2ts", 1), ("png", 1)]
    );
}

// Builders

#[test]
fn builders_make_known_bytes() {
    assert_eq!(crc32(b"123456789"), 0xCBF43926);
    assert_eq!(crc32(b""), 0);
    let mut v = vec![0u8; 10];
    let mut x = Xorshift(1);
    x.fill(&mut v);
    // One step from 1 gives 0x40822041, the next 0x100041060C011441.
    assert_eq!(v, vec![0x41, 0x20, 0x82, 0x40, 0, 0, 0, 0, 0x41, 0x14]);
    assert_eq!(x.0, 0x100041060C011441);
    let png = minimal_png(0);
    assert_eq!(png.len(), 8 + 25 + 12 + 12);
    assert_eq!(png[png.len() - 4..], [0xAE, 0x42, 0x60, 0x82]);
    assert_eq!(minimal_jpeg(0)[..4], [0xFF, 0xD8, 0xFF, 0xE0]);
    assert_eq!(minimal_mp4(100, false, true).len(), 24 + 16 + 116 + 72);
    assert_eq!(minimal_heic(10).len(), 24 + 40 + 18);
    assert_eq!(minimal_mov(10).len(), 20 + 8 + 18 + 56);
    assert!(minimal_pdf(7).starts_with(b"%PDF-1.4\n"));
    assert!(minimal_pdf(7).ends_with(b"%%EOF\n"));
    let disk = build_disk(64, &[(10, &[1, 2, 3]), (12, &[9])]);
    assert_eq!(disk[10..13], [1, 2, 9]);
    assert_eq!(disk[20..24], build_disk(64, &[])[20..24]);
}
