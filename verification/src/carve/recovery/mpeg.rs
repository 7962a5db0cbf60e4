//! MPEG program and transport streams.

use super::{big16, carved, four, lemma_four, lemma_magic, lemma_word};
use crate::carve::bytes::smaller;
use crate::carve::carver::{BuiltinCarver, Carver};
use crate::carve::formats::mpeg::{
    packet_len, sync_run, walk, MpegPs, MpegTs, PS_MAX_LEN, TS_MAX_LEN,
};
use vstd::prelude::*;

verus! {

/// A start code is at `p`: two zeros, a one, and the code itself. It is in the
/// input, and within the longest file that starts at `start`.
pub open spec fn code_at(d: Seq<u8>, start: int, p: int) -> bool {
    &&& 0 <= p
    &&& p + 4 <= d.len()
    &&& p + 4 <= start + 17179869184
    &&& d[p] == 0
    &&& d[p + 1] == 0
    &&& d[p + 2] == 1
}

/// A packet is from `p` up to `q`: a pack header of MPEG-2, which tells how
/// many bytes of stuffing it has, a pack header of MPEG-1, or any other
/// packet of a stream, which tells its length.
pub open spec fn packet(d: Seq<u8>, start: int, p: int, q: int) -> bool {
    &&& code_at(d, start, p)
    &&& {
        ||| d[p + 3] == 0xBA && p + 14 <= d.len() && 0x40 <= d[p + 4] <= 0x7F && q == p + 14
            + d[p + 13] % 8
        ||| d[p + 3] == 0xBA && p + 14 <= d.len() && 0x20 <= d[p + 4] <= 0x2F && q == p + 12
        ||| 0xBB <= d[p + 3] && p + 6 <= d.len() && q == p + 6 + big16(d, p + 4)
    }
}

/// Packets lie one after another between the places `ps`.
pub open spec fn packets(d: Seq<u8>, start: int, ps: Seq<int>) -> bool {
    &&& ps.len() >= 1
    &&& ps[0] == start
    &&& forall|k: int|
        #![trigger ps[k]]
        0 <= k < ps.len() - 1 ==> packet(d, start, ps[k], ps[k + 1])
}

/// The program ends at `p`: the end code is there.
pub open spec fn program_ends(d: Seq<u8>, start: int, p: int) -> bool {
    code_at(d, start, p) && d[p + 3] == 0xB9
}

/// A stream of `n` packets and `len` bytes is carved if it is no accident: four packets,
/// and more than 32 bytes. No stream is longer than 16 GiB.
pub open spec fn stream(d: Seq<u8>, start: int, n: int, len: int) -> bool {
    carved(
        BuiltinCarver::MpegPs(MpegPs),
        d,
        start,
        if n < 4 || len <= 32 {
            None
        } else if len <= 17179869184 {
            Some((len, "mpg"@))
        } else {
            Some((17179869184, "mpg"@))
        },
    )
}

spec fn bound(d: Seq<u8>, start: int) -> int {
    smaller(start + PS_MAX_LEN, d.len() as int)
}

#[verifier::rlimit(40)]
proof fn lemma_packet(d: Seq<u8>, start: int, p: int, q: int)
    requires
        code_at(d, start, p),
        d[p + 3] != 0xB9,
    ensures
        packet(d, start, p, q) == (packet_len(d, p) == Some(q - p)),
{
    let b = d[p + 4];
    assert((b / 64 == 1) == (0x40 <= b && b <= 0x7F));
    assert((b / 16 == 2) == (0x20 <= b && b <= 0x2F));
}

#[verifier::rlimit(40)]
proof fn lemma_step(d: Seq<u8>, start: int, p: int, q: int, n: int)
    requires
        0 <= start,
        packet(d, start, p, q),
    ensures
        walk(d, bound(d, start), p, n) == walk(d, bound(d, start), q, n + 1),
        p < q,
{
    lemma_packet(d, start, p, q);
}

#[verifier::rlimit(40)]
proof fn lemma_through(d: Seq<u8>, start: int, ps: Seq<int>, k: int, n: int)
    requires
        0 <= start,
        packets(d, start, ps),
        0 <= k < ps.len(),
    ensures
        walk(d, bound(d, start), ps[k], n) == walk(
            d,
            bound(d, start),
            ps.last(),
            n + ps.len() - 1 - k,
        ),
        ps[k] <= ps.last(),
    decreases ps.len() - k,
{
    if k < ps.len() - 1 {
        assert(packet(d, start, ps[k], ps[k + 1]));
        lemma_step(d, start, ps[k], ps[k + 1], n);
        lemma_through(d, start, ps, k + 1, n + 1);
    }
}

proof fn lemma_start(d: Seq<u8>, start: int)
    requires
        four(d, start, 0x00, 0x00, 0x01, 0xBA),
    ensures
        crate::carve::has_magic(BuiltinCarver::MpegPs(MpegPs).signature(), d, start),
{
    let c = BuiltinCarver::MpegPs(MpegPs);
    lemma_four(d, start, 0x00, 0x00, 0x01, 0xBA);
    assert(start + c.signature().magic_offset == start);
    lemma_magic(c, d, start, 0);
}

/// A program stream is carved up to its end code, with that.
pub proof fn lemma_program_is_whole(d: Seq<u8>, start: int, ps: Seq<int>)
    requires
        four(d, start, 0x00, 0x00, 0x01, 0xBA),
        packets(d, start, ps),
        program_ends(d, start, ps.last()),
    ensures
        stream(d, start, ps.len() as int, ps.last() + 4 - start),
{
    lemma_through(d, start, ps, 0, 0);
    lemma_start(d, start);
}

/// A program stream without an end code is carved up to where no further
/// packet is.
#[verifier::rlimit(40)]
pub proof fn lemma_cut_program(d: Seq<u8>, start: int, ps: Seq<int>)
    requires
        four(d, start, 0x00, 0x00, 0x01, 0xBA),
        packets(d, start, ps),
        !program_ends(d, start, ps.last()),
        forall|q: int| !#[trigger] packet(d, start, ps.last(), q),
    ensures
        stream(d, start, ps.len() - 1, ps.last() - start),
{
    let p = ps.last();
    lemma_through(d, start, ps, 0, 0);
    if code_at(d, start, p) {
        if let Some(len) = packet_len(d, p) {
            lemma_packet(d, start, p, p + len);
        }
    }
    lemma_start(d, start);
}

/// The bytes that `n` packets take: 188 each, and four for a time stamp in
/// each where there are any.
pub open spec fn packets_len(timestamps: bool, n: int) -> int {
    if timestamps {
        192 * n
    } else {
        188 * n
    }
}

/// The `k`-th packet of a transport stream at `start` is in the input, within
/// the longest file of 64 GiB, and in sync: its first byte, behind the time
/// stamp, is 0x47.
pub open spec fn in_sync(d: Seq<u8>, start: int, timestamps: bool, k: int) -> bool {
    &&& start + packets_len(timestamps, k + 1) <= d.len()
    &&& packets_len(timestamps, k + 1) <= 68719476736
    &&& d[start + packets_len(timestamps, k) + if timestamps {
        4int
    } else {
        0
    }] == 0x47
}

proof fn lemma_run(d: Seq<u8>, start: int, timestamps: bool, n: int, k: int)
    requires
        0 <= k <= n,
        forall|x: int| 0 <= x < n ==> #[trigger] in_sync(d, start, timestamps, x),
        !in_sync(d, start, timestamps, n),
    ensures
        ({
            let ts = MpegTs { timestamps };
            sync_run(
                d,
                smaller(start + TS_MAX_LEN, d.len() as int),
                start + packets_len(timestamps, k),
                ts.packet_size(),
                ts.sync_offset(),
            ) == n - k
        }),
    decreases n - k,
{
    if k < n {
        assert(in_sync(d, start, timestamps, k));
        lemma_run(d, start, timestamps, n, k + 1);
    }
}

/// A transport stream is carved as long as its packets are in sync; sixteen
/// of them are needed.
pub proof fn lemma_transport_is_whole(d: Seq<u8>, start: int, timestamps: bool, n: int)
    requires
        0 <= start,
        n >= 0,
        forall|x: int| 0 <= x < n ==> #[trigger] in_sync(d, start, timestamps, x),
        !in_sync(d, start, timestamps, n),
    ensures
        carved(
            BuiltinCarver::MpegTs(MpegTs { timestamps }),
            d,
            start,
            if n < 16 {
                None
            } else if timestamps {
                Some((192 * n, "m2ts"@))
            } else {
                Some((188 * n, "ts"@))
            },
        ),
{
    let ts = MpegTs { timestamps };
    let c = BuiltinCarver::MpegTs(ts);
    lemma_run(d, start, timestamps, n, 0);
    assert(n * ts.packet_size() == packets_len(timestamps, n)) by (nonlinear_arith)
        requires
            ts.packet_size() == if timestamps {
                192int
            } else {
                188
            },
            packets_len(timestamps, n) == if timestamps {
                192 * n
            } else {
                188 * n
            },
    ;
    if n >= 16 {
        assert(in_sync(d, start, timestamps, 0));
        lemma_word(d, start + ts.sync_offset(), c.signature().magics[0]);
        lemma_magic(c, d, start, 0);
    }
}

} // verus!
