//! How long a carved file can be.

use super::bytes::{be16, be32, room, smaller, stands_at};
use super::carver::{BuiltinCarver, Carver};
use super::formats::tiff::{not_above, Place, Walked, MAX_ENTRIES, TAG_EXIF_IFD, TAG_SUB_IFDS};
use super::formats::{gif, jpeg, mpeg, pdf, png, tiff};
use super::search::{lemma_first_at_in_range, lemma_last_at_in_range};
use vstd::prelude::*;

verus! {

proof fn lemma_png(d: Seq<u8>, start: int, limit: int, pos: int, seen: bool)
    ensures
        png::walk(d, start, limit, pos, seen) matches Some((len, _)) ==> len <= limit - start,
    decreases room(pos, limit),
{
    let next = pos + 12 + be32(d, pos);
    if pos + 8 <= limit && next <= limit {
        lemma_png(d, start, limit, next, seen || stands_at(d, pos + 4, png::idat_tag()));
    }
}

proof fn lemma_gif(d: Seq<u8>, start: int, limit: int, pos: int, seen: bool)
    ensures
        gif::walk(d, start, limit, pos, seen) matches Some((len, _)) ==> len <= limit - start,
    decreases room(pos, limit),
{
    if pos < limit && d[pos] != 0x3B {
        match gif::block_end(d, pos, limit) {
            Some(next) if next > pos => lemma_gif(d, start, limit, next, seen || d[pos] == 0x2C),
            _ => {},
        }
    }
}

proof fn lemma_jpeg(d: Seq<u8>, limit: int, pos: int)
    ensures
        jpeg::head(d, limit, pos) matches jpeg::Head::End(end) ==> end <= limit,
    decreases room(pos, limit),
{
    if pos + 4 <= limit {
        let next = pos + 2 + be16(d, pos + 2);
        lemma_jpeg(d, limit, pos + 2);
        if be16(d, pos + 2) >= 2 {
            lemma_jpeg(d, limit, next);
        }
    }
}

proof fn lemma_sync_run(d: Seq<u8>, limit: int, pos: int, packet: int, sync: int)
    requires
        packet > 0,
    ensures
        mpeg::sync_run(d, limit, pos, packet, sync) * packet <= room(pos, limit),
    decreases room(pos, limit),
{
    if pos + packet <= limit && d[pos + sync] == 0x47 {
        lemma_sync_run(d, limit, pos + packet, packet, sync);
        let n = mpeg::sync_run(d, limit, pos + packet, packet, sync);
        assert((1 + n) * packet == n * packet + packet) by (nonlinear_arith);
    } else {
        assert(0 * packet == 0) by (nonlinear_arith);
    }
}

/// Noting data moves the end to the limit at most.
spec fn stays(p: Place, w0: Walked, w1: Walked) -> bool {
    w1.max_end <= w0.max_end || w1.max_end <= p.limit
}

proof fn lemma_strips(p: Place, w: Walked, offsets: Seq<int>, counts: Seq<int>, n: int)
    ensures
        stays(p, w, p.strips_noted(w, offsets, counts, n)),
    decreases n,
{
    if n > 0 {
        lemma_strips(p, w, offsets, counts, n - 1);
    }
}

proof fn lemma_tiff_walk(p: Place, w: Walked, ifd: int)
    ensures
        stays(p, w, p.walk(w, ifd)),
    decreases w.left, 0int, 0int,
{
    if !(w.left == 0 || ifd == 0 || ifd >= p.limit) {
        let entered = Walked { max_end: w.max_end, left: (w.left - 1) as nat };
        match p.short(ifd) {
            Some(n) if 0 < n <= MAX_ENTRIES => {
                lemma_tiff_entries(p, entered, ifd + 2, n, 0, None, None);
                match p.entries(entered, ifd + 2, n, 0, None, None) {
                    (done, Some((offsets, counts))) => {
                        let table_end = ifd + 2 + 12 * n;
                        let strips = match (offsets, counts) {
                            (Some(o), Some(c)) => {
                                let k = smaller(o.len() as int, c.len() as int);
                                lemma_strips(p, done, o, c, k);
                                p.strips_noted(done, o, c, k)
                            },
                            _ => done,
                        };
                        let noted = p.noted(strips, table_end + 4);
                        if let Some(next) = p.long(table_end) {
                            lemma_tiff_walk(p, not_above(noted, entered.left), next);
                        }
                    },
                    _ => {},
                }
            },
            _ => {},
        }
    }
}

proof fn lemma_tiff_entries(
    p: Place,
    w: Walked,
    table: int,
    n: int,
    i: int,
    offsets: Option<Seq<int>>,
    counts: Option<Seq<int>>,
)
    ensures
        stays(p, w, p.entries(w, table, n, i, offsets, counts).0),
    decreases w.left, 2int, n - i,
{
    let e = table + 12 * i;
    if i < n {
        match (p.short(e), p.short(e + 2), p.long(e + 4)) {
            (Some(tag), Some(t), Some(count)) => {
                let noted = not_above(p.entry_noted(w, e), w.left);
                let values = p.values(t, count, e + 8);
                lemma_tiff_entries(p, noted, table, n, i + 1, values, counts);
                lemma_tiff_entries(p, noted, table, n, i + 1, offsets, values);
                let after = match (values, p.long(e + 8)) {
                    (Some(ifds), _) if tag == TAG_SUB_IFDS => {
                        lemma_tiff_subs(p, noted, ifds, 0);
                        p.subs(noted, ifds, 0)
                    },
                    (_, Some(ifd)) if tag == TAG_EXIF_IFD => {
                        lemma_tiff_walk(p, noted, ifd);
                        p.walk(noted, ifd)
                    },
                    _ => noted,
                };
                lemma_tiff_entries(
                    p,
                    not_above(after, noted.left),
                    table,
                    n,
                    i + 1,
                    offsets,
                    counts,
                );
            },
            _ => {},
        }
    }
}

proof fn lemma_tiff_subs(p: Place, w: Walked, ifds: Seq<int>, j: int)
    ensures
        stays(p, w, p.subs(w, ifds, j)),
    decreases w.left, 1int, ifds.len() - j,
{
    if 0 <= j < ifds.len() {
        lemma_tiff_walk(p, w, ifds[j]);
        lemma_tiff_subs(p, not_above(p.walk(w, ifds[j]), w.left), ifds, j + 1);
    }
}

/// No file is longer than its format allows.
pub proof fn lemma_max_len(c: BuiltinCarver, d: Seq<u8>, start: int)
    requires
        0 <= start <= d.len(),
    ensures
        c.measured(d, start) matches Some((len, _)) ==> len <= c.signature().max_len,
{
    let limit = smaller(start + c.signature().max_len, d.len() as int);
    match c {
        BuiltinCarver::Png(_) => lemma_png(d, start, limit, start + 8, false),
        BuiltinCarver::Gif(_) => lemma_gif(
            d,
            start,
            limit,
            start + 13 + gif::table_len(d[start + 10]),
            false,
        ),
        BuiltinCarver::Jpeg(_) => {
            lemma_jpeg(d, limit, start + 2);
            if let jpeg::Head::Scan(pos) = jpeg::head(d, limit, start + 2) {
                lemma_first_at_in_range(d, jpeg::eoi_marker(), pos, limit);
            }
        },
        BuiltinCarver::MpegTs(ts) => lemma_sync_run(
            d,
            limit,
            start,
            ts.packet_size(),
            ts.sync_offset(),
        ),
        BuiltinCarver::Pdf(_) => {
            lemma_first_at_in_range(d, pdf::header_tag(), start + 5, limit);
            lemma_last_at_in_range(d, pdf::eof_tag(), start, pdf::window_end(d, start, limit));
        },
        BuiltinCarver::Tiff(_) => {
            let place = Place {
                d,
                start,
                le: d[start] == 0x49 && d[start + 1] == 0x49,
                limit: smaller(tiff::MAX_LEN as int, d.len() - start),
            };
            let w = Walked { max_end: 8, left: tiff::MAX_IFDS as nat };
            lemma_tiff_walk(place, w, place.long(4)->0);
        },
        _ => {},
    }
}

} // verus!
