//! Builders for tiny-but-structurally-valid media files, plus a
//! deterministic filler. Used by the test suite and the demo; not part of
//! the recovery logic.

use crate::text::number::{digits_of, write_digits};
use vstd::prelude::*;

verus! {

/// One step of a bitwise CRC-32 (IEEE).
pub open spec fn crc_bit(crc: u32) -> u32 {
    if crc % 2 == 1 {
        (crc / 2) ^ 0xEDB8_8320
    } else {
        crc / 2
    }
}

/// `n` steps of a bitwise CRC-32.
pub open spec fn crc_bits(crc: u32, n: int) -> u32
    decreases n,
{
    if n <= 0 {
        crc
    } else {
        crc_bit(crc_bits(crc, n - 1))
    }
}

/// The CRC register after some bytes.
pub open spec fn crc_register(data: Seq<u8>) -> u32
    decreases data.len(),
{
    if data.len() == 0 {
        0xFFFF_FFFF
    } else {
        crc_bits(crc_register(data.drop_last()) ^ (data.last() as u32), 8)
    }
}

/// Bitwise CRC-32 (IEEE), enough for generating valid PNG chunks.
pub fn crc32(data: &[u8]) -> (r: u32)
    ensures
        r == !crc_register(data@),
{
    let n: usize = data.len();
    let mut crc: u32 = 0xFFFF_FFFF;
    let mut i: usize = 0;
    assert(data@.take(0) =~= Seq::empty());
    while i < n
        invariant
            i <= n,
            n == data@.len(),
            crc == crc_register(data@.take(i as int)),
        decreases n - i,
    {
        let ghost before = crc;
        crc = crc ^ (data[i] as u32);
        let ghost start = crc;
        let mut k: u32 = 0;
        while k < 8
            invariant
                k <= 8,
                crc == crc_bits(start, k as int),
            decreases 8 - k,
        {
            crc = if crc % 2 == 1 {
                (crc / 2) ^ 0xEDB8_8320
            } else {
                crc / 2
            };
            k = k + 1;
        }
        assert(data@.take(i + 1).drop_last() =~= data@.take(i as int));
        i = i + 1;
    }
    assert(data@.take(n as int) =~= data@);
    !crc
}

/// Deterministic xorshift filler so synthetic disks are reproducible.
pub struct Xorshift(pub u64);

/// The state after one step.
pub open spec fn shifted(x: u64) -> u64 {
    let a = x ^ (x << 13u64);
    let b = a ^ (a >> 7u64);
    b ^ (b << 17u64)
}

/// The state after `n` steps.
pub open spec fn shifted_times(x: u64, n: int) -> u64
    decreases n,
{
    if n <= 0 {
        x
    } else {
        shifted(shifted_times(x, n - 1))
    }
}

/// The `j`-th byte of a number, the lowest first.
pub open spec fn le_byte(x: int, j: int) -> u8
    decreases j,
{
    if j <= 0 {
        (x % 256) as u8
    } else {
        le_byte(x / 256, j - 1)
    }
}

/// `n` bytes of filler from a state on: each step gives eight bytes.
pub open spec fn filler(x: u64, n: int) -> Seq<u8> {
    Seq::new(n as nat, |i: int| le_byte(shifted_times(x, i / 8 + 1) as int, i % 8))
}

impl Xorshift {
    pub fn fill(&mut self, buf: &mut [u8])
        ensures
            final(buf)@ == filler(old(self).0, old(buf)@.len() as int),
            final(self).0 == shifted_times(old(self).0, (old(buf)@.len() + 7) as int / 8),
    {
        let ghost x0 = self.0;
        let n: usize = buf.len();
        let mut i: usize = 0;
        let mut rest: u64 = 0;
        while i < n
            invariant
                i <= n,
                n == buf@.len(),
                n == old(buf)@.len(),
                x0 == old(self).0,
                self.0 == shifted_times(x0, (i + 7) / 8),
                i % 8 != 0 ==> forall|j: int|
                    0 <= j < 8 - i % 8 ==> #[trigger] le_byte(rest as int, j) == le_byte(
                        self.0 as int,
                        i % 8 + j,
                    ),
                forall|k: int|
                    0 <= k < i ==> #[trigger] buf@[k] == le_byte(
                        shifted_times(x0, k / 8 + 1) as int,
                        k % 8,
                    ),
            decreases n - i,
        {
            if i % 8 == 0 {
                let x: u64 = self.0;
                let a: u64 = x ^ (x << 13u64);
                let b: u64 = a ^ (a >> 7u64);
                self.0 = b ^ (b << 17u64);
                rest = self.0;
                assert(shifted_times(x0, i / 8 + 1) == shifted(shifted_times(x0, i as int / 8)));
            }
            assert(le_byte(rest as int, 0) == le_byte(self.0 as int, i as int % 8));
            buf[i] = (rest % 256) as u8;
            proof {
                assert forall|j: int| 0 <= j < 7 - i % 8 implies #[trigger] le_byte(
                    rest as int / 256,
                    j,
                ) == le_byte(self.0 as int, i % 8 + 1 + j) by {
                    assert(le_byte(rest as int, j + 1) == le_byte(self.0 as int, i % 8 + j + 1));
                }
            }
            rest = rest / 256;
            i = i + 1;
        }
        assert(buf@ =~= filler(x0, n as int));
    }
}

/// Append bytes.
fn push_bytes(out: &mut Vec<u8>, bytes: &[u8])
    ensures
        final(out)@ == old(out)@ + bytes@,
{
    let n: usize = bytes.len();
    let mut i: usize = 0;
    assert(old(out)@ + bytes@.take(0) =~= old(out)@);
    while i < n
        invariant
            i <= n,
            n == bytes@.len(),
            out@ == old(out)@ + bytes@.take(i as int),
        decreases n - i,
    {
        out.push(bytes[i]);
        assert(old(out)@ + bytes@.take(i + 1) =~= (old(out)@ + bytes@.take(i as int)).push(
            bytes@[i as int],
        ));
        i = i + 1;
    }
    assert(bytes@.take(n as int) =~= bytes@);
}

/// A number in two bytes, the highest first; what does not fit is cut off.
pub open spec fn be16_bytes(n: int) -> Seq<u8> {
    seq![(n / 0x100 % 0x100) as u8, (n % 0x100) as u8]
}

/// A number in four bytes, the highest first; what does not fit is cut off.
pub open spec fn be32_bytes(n: int) -> Seq<u8> {
    seq![
        (n / 0x100_0000 % 0x100) as u8,
        (n / 0x1_0000 % 0x100) as u8,
        (n / 0x100 % 0x100) as u8,
        (n % 0x100) as u8,
    ]
}

fn push_be16(out: &mut Vec<u8>, n: u64)
    ensures
        final(out)@ == old(out)@ + be16_bytes(n as int),
{
    out.push((n / 0x100 % 0x100) as u8);
    out.push((n % 0x100) as u8);
    assert(out@ =~= old(out)@ + be16_bytes(n as int));
}

fn push_be32(out: &mut Vec<u8>, n: u64)
    ensures
        final(out)@ == old(out)@ + be32_bytes(n as int),
{
    out.push((n / 0x100_0000 % 0x100) as u8);
    out.push((n / 0x1_0000 % 0x100) as u8);
    out.push((n / 0x100 % 0x100) as u8);
    out.push((n % 0x100) as u8);
    assert(out@ =~= old(out)@ + be32_bytes(n as int));
}

/// Filler of `n` bytes from a seed.
fn filled(seed: u64, n: usize) -> (v: Vec<u8>)
    ensures
        v@ == filler(seed, n as int),
{
    let mut v: Vec<u8> = vec![0u8; n];
    let mut x = Xorshift(seed);
    x.fill(v.as_mut_slice());
    v
}

/// A PNG chunk: length, type, data, and the CRC of type and data.
pub open spec fn chunk_bytes(typ: Seq<u8>, data: Seq<u8>) -> Seq<u8> {
    be32_bytes(data.len() as int) + typ + data + be32_bytes(!crc_register(typ + data) as int)
}

fn png_chunk(out: &mut Vec<u8>, typ: &[u8], data: &[u8])
    ensures
        final(out)@ == old(out)@ + chunk_bytes(typ@, data@),
{
    let mut crc_input: Vec<u8> = Vec::new();
    push_bytes(&mut crc_input, typ);
    push_bytes(&mut crc_input, data);
    assert(crc_input@ =~= typ@ + data@);
    let mut chunk: Vec<u8> = Vec::new();
    push_be32(&mut chunk, data.len() as u64);
    assert(chunk@ =~= be32_bytes(data@.len() as int));
    push_bytes(&mut chunk, typ);
    push_bytes(&mut chunk, data);
    push_be32(&mut chunk, crc32(&crc_input) as u64);
    push_bytes(out, &chunk);
}

/// "IHDR"
pub open spec fn tag_ihdr() -> Seq<u8> {
    seq![
        0x49u8, 0x48u8, 0x44u8, 0x52u8,
    ]
}

fn push_tag_ihdr(out: &mut Vec<u8>)
    ensures
        final(out)@ == old(out)@ + tag_ihdr(),
{
    let bytes: [u8; 4] = [
        0x49, 0x48, 0x44, 0x52,
    ];
    assert(bytes@ =~= tag_ihdr());
    push_bytes(out, &bytes);
}

/// "IDAT"
pub open spec fn tag_idat() -> Seq<u8> {
    seq![
        0x49u8, 0x44u8, 0x41u8, 0x54u8,
    ]
}

fn push_tag_idat(out: &mut Vec<u8>)
    ensures
        final(out)@ == old(out)@ + tag_idat(),
{
    let bytes: [u8; 4] = [
        0x49, 0x44, 0x41, 0x54,
    ];
    assert(bytes@ =~= tag_idat());
    push_bytes(out, &bytes);
}

/// "IEND"
pub open spec fn tag_iend() -> Seq<u8> {
    seq![
        0x49u8, 0x45u8, 0x4Eu8, 0x44u8,
    ]
}

fn push_tag_iend(out: &mut Vec<u8>)
    ensures
        final(out)@ == old(out)@ + tag_iend(),
{
    let bytes: [u8; 4] = [
        0x49, 0x45, 0x4E, 0x44,
    ];
    assert(bytes@ =~= tag_iend());
    push_bytes(out, &bytes);
}

/// "ftyp"
pub open spec fn tag_ftyp() -> Seq<u8> {
    seq![
        0x66u8, 0x74u8, 0x79u8, 0x70u8,
    ]
}

fn push_tag_ftyp(out: &mut Vec<u8>)
    ensures
        final(out)@ == old(out)@ + tag_ftyp(),
{
    let bytes: [u8; 4] = [
        0x66, 0x74, 0x79, 0x70,
    ];
    assert(bytes@ =~= tag_ftyp());
    push_bytes(out, &bytes);
}

/// "free"
pub open spec fn tag_free() -> Seq<u8> {
    seq![
        0x66u8, 0x72u8, 0x65u8, 0x65u8,
    ]
}

fn push_tag_free(out: &mut Vec<u8>)
    ensures
        final(out)@ == old(out)@ + tag_free(),
{
    let bytes: [u8; 4] = [
        0x66, 0x72, 0x65, 0x65,
    ];
    assert(bytes@ =~= tag_free());
    push_bytes(out, &bytes);
}

/// "mdat"
pub open spec fn tag_mdat() -> Seq<u8> {
    seq![
        0x6Du8, 0x64u8, 0x61u8, 0x74u8,
    ]
}

fn push_tag_mdat(out: &mut Vec<u8>)
    ensures
        final(out)@ == old(out)@ + tag_mdat(),
{
    let bytes: [u8; 4] = [
        0x6D, 0x64, 0x61, 0x74,
    ];
    assert(bytes@ =~= tag_mdat());
    push_bytes(out, &bytes);
}

/// "moov"
pub open spec fn tag_moov() -> Seq<u8> {
    seq![
        0x6Du8, 0x6Fu8, 0x6Fu8, 0x76u8,
    ]
}

fn push_tag_moov(out: &mut Vec<u8>)
    ensures
        final(out)@ == old(out)@ + tag_moov(),
{
    let bytes: [u8; 4] = [
        0x6D, 0x6F, 0x6F, 0x76,
    ];
    assert(bytes@ =~= tag_moov());
    push_bytes(out, &bytes);
}

/// "meta"
pub open spec fn tag_meta() -> Seq<u8> {
    seq![
        0x6Du8, 0x65u8, 0x74u8, 0x61u8,
    ]
}

fn push_tag_meta(out: &mut Vec<u8>)
    ensures
        final(out)@ == old(out)@ + tag_meta(),
{
    let bytes: [u8; 4] = [
        0x6D, 0x65, 0x74, 0x61,
    ];
    assert(bytes@ =~= tag_meta());
    push_bytes(out, &bytes);
}

/// "wide"
pub open spec fn tag_wide() -> Seq<u8> {
    seq![
        0x77u8, 0x69u8, 0x64u8, 0x65u8,
    ]
}

fn push_tag_wide(out: &mut Vec<u8>)
    ensures
        final(out)@ == old(out)@ + tag_wide(),
{
    let bytes: [u8; 4] = [
        0x77, 0x69, 0x64, 0x65,
    ];
    assert(bytes@ =~= tag_wide());
    push_bytes(out, &bytes);
}

/// "isom"
pub open spec fn tag_isom() -> Seq<u8> {
    seq![
        0x69u8, 0x73u8, 0x6Fu8, 0x6Du8,
    ]
}

fn push_tag_isom(out: &mut Vec<u8>)
    ensures
        final(out)@ == old(out)@ + tag_isom(),
{
    let bytes: [u8; 4] = [
        0x69, 0x73, 0x6F, 0x6D,
    ];
    assert(bytes@ =~= tag_isom());
    push_bytes(out, &bytes);
}

/// "mp42"
pub open spec fn tag_mp42() -> Seq<u8> {
    seq![
        0x6Du8, 0x70u8, 0x34u8, 0x32u8,
    ]
}

fn push_tag_mp42(out: &mut Vec<u8>)
    ensures
        final(out)@ == old(out)@ + tag_mp42(),
{
    let bytes: [u8; 4] = [
        0x6D, 0x70, 0x34, 0x32,
    ];
    assert(bytes@ =~= tag_mp42());
    push_bytes(out, &bytes);
}

/// "heic"
pub open spec fn tag_heic() -> Seq<u8> {
    seq![
        0x68u8, 0x65u8, 0x69u8, 0x63u8,
    ]
}

fn push_tag_heic(out: &mut Vec<u8>)
    ensures
        final(out)@ == old(out)@ + tag_heic(),
{
    let bytes: [u8; 4] = [
        0x68, 0x65, 0x69, 0x63,
    ];
    assert(bytes@ =~= tag_heic());
    push_bytes(out, &bytes);
}

/// "mif1"
pub open spec fn tag_mif1() -> Seq<u8> {
    seq![
        0x6Du8, 0x69u8, 0x66u8, 0x31u8,
    ]
}

fn push_tag_mif1(out: &mut Vec<u8>)
    ensures
        final(out)@ == old(out)@ + tag_mif1(),
{
    let bytes: [u8; 4] = [
        0x6D, 0x69, 0x66, 0x31,
    ];
    assert(bytes@ =~= tag_mif1());
    push_bytes(out, &bytes);
}

/// "qt  "
pub open spec fn tag_qt() -> Seq<u8> {
    seq![
        0x71u8, 0x74u8, 0x20u8, 0x20u8,
    ]
}

fn push_tag_qt(out: &mut Vec<u8>)
    ensures
        final(out)@ == old(out)@ + tag_qt(),
{
    let bytes: [u8; 4] = [
        0x71, 0x74, 0x20, 0x20,
    ];
    assert(bytes@ =~= tag_qt());
    push_bytes(out, &bytes);
}

/// The signature of a PNG.
pub open spec fn png_signature() -> Seq<u8> {
    seq![
        0x89u8, 0x50u8, 0x4Eu8, 0x47u8, 0x0Du8, 0x0Au8, 0x1Au8, 0x0Au8,
    ]
}

fn push_png_signature(out: &mut Vec<u8>)
    ensures
        final(out)@ == old(out)@ + png_signature(),
{
    let bytes: [u8; 8] = [
        0x89, 0x50, 0x4E, 0x47, 0x0D, 0x0A, 0x1A, 0x0A,
    ];
    assert(bytes@ =~= png_signature());
    push_bytes(out, &bytes);
}

/// An image of 16 by 16 pixels, 8 bits deep, in true color.
pub open spec fn png_header() -> Seq<u8> {
    seq![
        0x00u8, 0x00u8, 0x00u8, 0x10u8, 0x00u8, 0x00u8, 0x00u8, 0x10u8, 0x08u8, 0x02u8,
        0x00u8, 0x00u8, 0x00u8,
    ]
}

fn push_png_header(out: &mut Vec<u8>)
    ensures
        final(out)@ == old(out)@ + png_header(),
{
    let bytes: [u8; 13] = [
        0x00, 0x00, 0x00, 0x10, 0x00, 0x00, 0x00, 0x10, 0x08, 0x02, 0x00, 0x00, 0x00,
    ];
    assert(bytes@ =~= png_header());
    push_bytes(out, &bytes);
}

/// The payload of the application segment.
pub open spec fn jfif_payload() -> Seq<u8> {
    seq![
        0x4Au8, 0x46u8, 0x49u8, 0x46u8, 0x00u8, 0x01u8, 0x02u8, 0x00u8, 0x00u8, 0x01u8,
        0x00u8, 0x01u8, 0x00u8, 0x00u8,
    ]
}

fn push_jfif_payload(out: &mut Vec<u8>)
    ensures
        final(out)@ == old(out)@ + jfif_payload(),
{
    let bytes: [u8; 14] = [
        0x4A, 0x46, 0x49, 0x46, 0x00, 0x01, 0x02, 0x00, 0x00, 0x01, 0x00, 0x01, 0x00, 0x00,
    ];
    assert(bytes@ =~= jfif_payload());
    push_bytes(out, &bytes);
}

/// A frame of 16 by 16 pixels with one component.
pub open spec fn sof_payload() -> Seq<u8> {
    seq![
        0x08u8, 0x00u8, 0x10u8, 0x00u8, 0x10u8, 0x01u8, 0x01u8, 0x11u8, 0x00u8,
    ]
}

fn push_sof_payload(out: &mut Vec<u8>)
    ensures
        final(out)@ == old(out)@ + sof_payload(),
{
    let bytes: [u8; 9] = [
        0x08, 0x00, 0x10, 0x00, 0x10, 0x01, 0x01, 0x11, 0x00,
    ];
    assert(bytes@ =~= sof_payload());
    push_bytes(out, &bytes);
}

/// A scan of one component.
pub open spec fn sos_payload() -> Seq<u8> {
    seq![
        0x01u8, 0x01u8, 0x00u8, 0x00u8, 0x3Fu8, 0x00u8,
    ]
}

fn push_sos_payload(out: &mut Vec<u8>)
    ensures
        final(out)@ == old(out)@ + sos_payload(),
{
    let bytes: [u8; 6] = [
        0x01, 0x01, 0x00, 0x00, 0x3F, 0x00,
    ];
    assert(bytes@ =~= sos_payload());
    push_bytes(out, &bytes);
}

/// The header and the first object of a document.
pub open spec fn pdf_start() -> Seq<u8> {
    seq![
        0x25u8, 0x50u8, 0x44u8, 0x46u8, 0x2Du8, 0x31u8, 0x2Eu8, 0x34u8, 0x0Au8, 0x31u8,
        0x20u8, 0x30u8, 0x20u8, 0x6Fu8, 0x62u8, 0x6Au8, 0x0Au8, 0x3Cu8, 0x3Cu8, 0x20u8,
        0x2Fu8, 0x54u8, 0x79u8, 0x70u8, 0x65u8, 0x20u8, 0x2Fu8, 0x43u8, 0x61u8, 0x74u8,
        0x61u8, 0x6Cu8, 0x6Fu8, 0x67u8, 0x20u8, 0x3Eu8, 0x3Eu8, 0x0Au8, 0x65u8, 0x6Eu8,
        0x64u8, 0x6Fu8, 0x62u8, 0x6Au8, 0x0Au8,
    ]
}

fn push_pdf_start(out: &mut Vec<u8>)
    ensures
        final(out)@ == old(out)@ + pdf_start(),
{
    let bytes: [u8; 45] = [
        0x25, 0x50, 0x44, 0x46, 0x2D, 0x31, 0x2E, 0x34, 0x0A, 0x31, 0x20, 0x30, 0x20, 0x6F,
        0x62, 0x6A, 0x0A, 0x3C, 0x3C, 0x20, 0x2F, 0x54, 0x79, 0x70, 0x65, 0x20, 0x2F, 0x43,
        0x61, 0x74, 0x61, 0x6C, 0x6F, 0x67, 0x20, 0x3E, 0x3E, 0x0A, 0x65, 0x6E, 0x64, 0x6F,
        0x62, 0x6A, 0x0A,
    ];
    assert(bytes@ =~= pdf_start());
    push_bytes(out, &bytes);
}

/// The start of the second object.
pub open spec fn pdf_object() -> Seq<u8> {
    seq![
        0x32u8, 0x20u8, 0x30u8, 0x20u8, 0x6Fu8, 0x62u8, 0x6Au8, 0x0Au8, 0x3Cu8, 0x3Cu8,
        0x20u8, 0x2Fu8, 0x4Cu8, 0x65u8, 0x6Eu8, 0x67u8, 0x74u8, 0x68u8, 0x20u8,
    ]
}

fn push_pdf_object(out: &mut Vec<u8>)
    ensures
        final(out)@ == old(out)@ + pdf_object(),
{
    let bytes: [u8; 19] = [
        0x32, 0x20, 0x30, 0x20, 0x6F, 0x62, 0x6A, 0x0A, 0x3C, 0x3C, 0x20, 0x2F, 0x4C, 0x65,
        0x6E, 0x67, 0x74, 0x68, 0x20,
    ];
    assert(bytes@ =~= pdf_object());
    push_bytes(out, &bytes);
}

/// The start of its stream.
pub open spec fn pdf_stream() -> Seq<u8> {
    seq![
        0x20u8, 0x3Eu8, 0x3Eu8, 0x0Au8, 0x73u8, 0x74u8, 0x72u8, 0x65u8, 0x61u8, 0x6Du8,
        0x0Au8,
    ]
}

fn push_pdf_stream(out: &mut Vec<u8>)
    ensures
        final(out)@ == old(out)@ + pdf_stream(),
{
    let bytes: [u8; 11] = [
        0x20, 0x3E, 0x3E, 0x0A, 0x73, 0x74, 0x72, 0x65, 0x61, 0x6D, 0x0A,
    ];
    assert(bytes@ =~= pdf_stream());
    push_bytes(out, &bytes);
}

/// The end of its stream.
pub open spec fn pdf_stream_end() -> Seq<u8> {
    seq![
        0x0Au8, 0x65u8, 0x6Eu8, 0x64u8, 0x73u8, 0x74u8, 0x72u8, 0x65u8, 0x61u8, 0x6Du8,
        0x0Au8, 0x65u8, 0x6Eu8, 0x64u8, 0x6Fu8, 0x62u8, 0x6Au8, 0x0Au8,
    ]
}

fn push_pdf_stream_end(out: &mut Vec<u8>)
    ensures
        final(out)@ == old(out)@ + pdf_stream_end(),
{
    let bytes: [u8; 18] = [
        0x0A, 0x65, 0x6E, 0x64, 0x73, 0x74, 0x72, 0x65, 0x61, 0x6D, 0x0A, 0x65, 0x6E, 0x64,
        0x6F, 0x62, 0x6A, 0x0A,
    ];
    assert(bytes@ =~= pdf_stream_end());
    push_bytes(out, &bytes);
}

/// The first trailer.
pub open spec fn pdf_trailer() -> Seq<u8> {
    seq![
        0x74u8, 0x72u8, 0x61u8, 0x69u8, 0x6Cu8, 0x65u8, 0x72u8, 0x0Au8, 0x3Cu8, 0x3Cu8,
        0x20u8, 0x2Fu8, 0x53u8, 0x69u8, 0x7Au8, 0x65u8, 0x20u8, 0x33u8, 0x20u8, 0x3Eu8,
        0x3Eu8, 0x0Au8, 0x73u8, 0x74u8, 0x61u8, 0x72u8, 0x74u8, 0x78u8, 0x72u8, 0x65u8,
        0x66u8, 0x0Au8, 0x30u8, 0x0Au8, 0x25u8, 0x25u8, 0x45u8, 0x4Fu8, 0x46u8, 0x0Au8,
    ]
}

fn push_pdf_trailer(out: &mut Vec<u8>)
    ensures
        final(out)@ == old(out)@ + pdf_trailer(),
{
    let bytes: [u8; 40] = [
        0x74, 0x72, 0x61, 0x69, 0x6C, 0x65, 0x72, 0x0A, 0x3C, 0x3C, 0x20, 0x2F, 0x53, 0x69,
        0x7A, 0x65, 0x20, 0x33, 0x20, 0x3E, 0x3E, 0x0A, 0x73, 0x74, 0x61, 0x72, 0x74, 0x78,
        0x72, 0x65, 0x66, 0x0A, 0x30, 0x0A, 0x25, 0x25, 0x45, 0x4F, 0x46, 0x0A,
    ];
    assert(bytes@ =~= pdf_trailer());
    push_bytes(out, &bytes);
}

/// An incremental update, with its own trailer.
pub open spec fn pdf_update() -> Seq<u8> {
    seq![
        0x33u8, 0x20u8, 0x30u8, 0x20u8, 0x6Fu8, 0x62u8, 0x6Au8, 0x0Au8, 0x3Cu8, 0x3Cu8,
        0x20u8, 0x3Eu8, 0x3Eu8, 0x0Au8, 0x65u8, 0x6Eu8, 0x64u8, 0x6Fu8, 0x62u8, 0x6Au8,
        0x0Au8, 0x74u8, 0x72u8, 0x61u8, 0x69u8, 0x6Cu8, 0x65u8, 0x72u8, 0x0Au8, 0x3Cu8,
        0x3Cu8, 0x20u8, 0x2Fu8, 0x53u8, 0x69u8, 0x7Au8, 0x65u8, 0x20u8, 0x34u8, 0x20u8,
        0x3Eu8, 0x3Eu8, 0x0Au8, 0x73u8, 0x74u8, 0x61u8, 0x72u8, 0x74u8, 0x78u8, 0x72u8,
        0x65u8, 0x66u8, 0x0Au8, 0x30u8, 0x0Au8, 0x25u8, 0x25u8, 0x45u8, 0x4Fu8, 0x46u8,
        0x0Au8,
    ]
}

fn push_pdf_update(out: &mut Vec<u8>)
    ensures
        final(out)@ == old(out)@ + pdf_update(),
{
    let bytes: [u8; 61] = [
        0x33, 0x20, 0x30, 0x20, 0x6F, 0x62, 0x6A, 0x0A, 0x3C, 0x3C, 0x20, 0x3E, 0x3E, 0x0A,
        0x65, 0x6E, 0x64, 0x6F, 0x62, 0x6A, 0x0A, 0x74, 0x72, 0x61, 0x69, 0x6C, 0x65, 0x72,
        0x0A, 0x3C, 0x3C, 0x20, 0x2F, 0x53, 0x69, 0x7A, 0x65, 0x20, 0x34, 0x20, 0x3E, 0x3E,
        0x0A, 0x73, 0x74, 0x61, 0x72, 0x74, 0x78, 0x72, 0x65, 0x66, 0x0A, 0x30, 0x0A, 0x25,
        0x25, 0x45, 0x4F, 0x46, 0x0A,
    ];
    assert(bytes@ =~= pdf_update());
    push_bytes(out, &bytes);
}

/// Filler in which no byte has its top bit set.
pub open spec fn plain_filler(seed: u64, n: int) -> Seq<u8> {
    Seq::new(n as nat, |i: int| (filler(seed, n)[i] % 128) as u8)
}

/// The bytes of a minimal PNG.
pub open spec fn png_bytes(idat_len: int) -> Seq<u8> {
    png_signature() + chunk_bytes(tag_ihdr(), png_header()) + chunk_bytes(
        tag_idat(),
        plain_filler(0x1DA7, idat_len),
    ) + chunk_bytes(tag_iend(), Seq::empty())
}

/// Minimal structurally-valid PNG: signature, IHDR, one IDAT, IEND.
pub fn minimal_png(idat_len: usize) -> (out: Vec<u8>)
    ensures
        out@ == png_bytes(idat_len as int),
{
    let mut out: Vec<u8> = Vec::new();
    push_png_signature(&mut out);
    assert(out@ =~= png_signature());
    let mut typ: Vec<u8> = Vec::new();
    push_tag_ihdr(&mut typ);
    assert(typ@ =~= tag_ihdr());
    let mut ihdr: Vec<u8> = Vec::new();
    push_png_header(&mut ihdr);
    assert(ihdr@ =~= png_header());
    png_chunk(&mut out, &typ, &ihdr);
    let mut idat: Vec<u8> = filled(0x1DA7, idat_len);
    let mut i: usize = 0;
    while i < idat_len
        invariant
            i <= idat_len,
            idat@.len() == idat_len,
            forall|k: int| 0 <= k < i ==> #[trigger] idat@[k] == filler(0x1DA7, idat_len as int)[k] % 128,
            forall|k: int|
                i <= k < idat_len ==> #[trigger] idat@[k] == filler(0x1DA7, idat_len as int)[k],
        decreases idat_len - i,
    {
        let b: u8 = idat[i];
        idat.set(i, b % 128);
        i = i + 1;
    }
    assert(idat@ =~= plain_filler(0x1DA7, idat_len as int));
    let mut typ: Vec<u8> = Vec::new();
    push_tag_idat(&mut typ);
    assert(typ@ =~= tag_idat());
    png_chunk(&mut out, &typ, &idat);
    let mut typ: Vec<u8> = Vec::new();
    push_tag_iend(&mut typ);
    assert(typ@ =~= tag_iend());
    let none: Vec<u8> = Vec::new();
    assert(none@ =~= Seq::empty());
    png_chunk(&mut out, &typ, &none);
    out
}

/// A JPEG segment: marker, length and payload.
pub open spec fn segment_bytes(marker: u8, payload: Seq<u8>) -> Seq<u8> {
    seq![0xFFu8, marker] + be16_bytes(payload.len() as int + 2) + payload
}

fn jpeg_segment(out: &mut Vec<u8>, marker: u8, payload: &[u8])
    requires
        payload@.len() + 2 <= u64::MAX,
    ensures
        final(out)@ == old(out)@ + segment_bytes(marker, payload@),
{
    let mut s: Vec<u8> = Vec::new();
    s.push(0xFF);
    s.push(marker);
    assert(s@ =~= seq![0xFFu8, marker]);
    push_be16(&mut s, payload.len() as u64 + 2);
    push_bytes(&mut s, payload);
    push_bytes(out, &s);
}

/// A quantization table.
pub open spec fn dqt_payload() -> Seq<u8> {
    Seq::new(
        65,
        |i: int|
            if i == 0 {
                0u8
            } else {
                ((i - 1) % 63 + 1) as u8
            },
    )
}

/// Filler without `FF`: encoders escape it in entropy data.
pub open spec fn entropy(seed: u64, n: int) -> Seq<u8> {
    Seq::new(
        n as nat,
        |i: int|
            if filler(seed, n)[i] == 0xFF {
                0x7Eu8
            } else {
                filler(seed, n)[i]
            },
    )
}

/// The bytes of a minimal JPEG.
pub open spec fn jpeg_bytes(entropy_len: int) -> Seq<u8> {
    seq![0xFFu8, 0xD8u8] + segment_bytes(0xE0, jfif_payload()) + segment_bytes(0xDB, dqt_payload())
        + segment_bytes(0xC0, sof_payload()) + segment_bytes(0xC4, Seq::new(17, |i: int| 0u8))
        + segment_bytes(0xDA, sos_payload()) + entropy(0x0DDB, entropy_len) + seq![0xFFu8, 0xD9u8]
}

/// Minimal structurally-valid JPEG: SOI, APP0, DQT, SOF0, DHT, SOS,
/// entropy data (0xFF-free), EOI.
pub fn minimal_jpeg(entropy_len: usize) -> (out: Vec<u8>)
    ensures
        out@ == jpeg_bytes(entropy_len as int),
{
    let mut out: Vec<u8> = Vec::new();
    out.push(0xFF);
    out.push(0xD8);  // SOI
    assert(out@ =~= seq![0xFFu8, 0xD8u8]);
    let mut app: Vec<u8> = Vec::new();
    push_jfif_payload(&mut app);
    assert(app@ =~= jfif_payload());
    jpeg_segment(&mut out, 0xE0, &app);
    let mut dqt: Vec<u8> = Vec::new();
    dqt.push(0);  // table id
    let mut i: u8 = 0;
    while i < 64
        invariant
            i <= 64,
            dqt@.len() == i + 1,
            forall|k: int| 0 <= k <= i ==> #[trigger] dqt@[k] == dqt_payload()[k],
        decreases 64 - i,
    {
        dqt.push(i % 63 + 1);
        i = i + 1;
    }
    assert(dqt@ =~= dqt_payload());
    jpeg_segment(&mut out, 0xDB, &dqt);
    // SOF0: precision 8, 16x16, 1 component
    let mut sof: Vec<u8> = Vec::new();
    push_sof_payload(&mut sof);
    assert(sof@ =~= sof_payload());
    jpeg_segment(&mut out, 0xC0, &sof);
    // DHT: minimal table (all zero counts, no symbols)
    let dht: Vec<u8> = vec![0u8; 17];
    assert(dht@ =~= Seq::new(17, |i: int| 0u8));
    jpeg_segment(&mut out, 0xC4, &dht);
    // SOS: 1 component
    let mut sos: Vec<u8> = Vec::new();
    push_sos_payload(&mut sos);
    assert(sos@ =~= sos_payload());
    jpeg_segment(&mut out, 0xDA, &sos);
    let mut data: Vec<u8> = filled(0x0DDB, entropy_len);
    let mut k: usize = 0;
    while k < entropy_len
        invariant
            k <= entropy_len,
            data@.len() == entropy_len,
            forall|j: int|
                0 <= j < k ==> #[trigger] data@[j] == entropy(0x0DDB, entropy_len as int)[j],
            forall|j: int|
                k <= j < entropy_len ==> #[trigger] data@[j] == filler(
                    0x0DDB,
                    entropy_len as int,
                )[j],
        decreases entropy_len - k,
    {
        if data[k] == 0xFF {
            data.set(k, 0x7E);
        }
        k = k + 1;
    }
    assert(data@ =~= entropy(0x0DDB, entropy_len as int));
    push_bytes(&mut out, &data);
    let ghost before = out@;
    out.push(0xFF);
    out.push(0xD9);  // EOI
    assert(out@ =~= before + seq![0xFFu8, 0xD9u8]);
    out
}

/// A box: length, type and payload.
pub open spec fn box_bytes(typ: Seq<u8>, payload: Seq<u8>) -> Seq<u8> {
    be32_bytes(payload.len() as int + 8) + typ + payload
}

/// A box with a 64-bit length.
pub open spec fn large_box_bytes(typ: Seq<u8>, payload: Seq<u8>) -> Seq<u8> {
    be32_bytes(1) + typ + be32_bytes((payload.len() as int + 16) / 0x1_0000_0000) + be32_bytes(
        payload.len() as int + 16,
    ) + payload
}

fn bmff_box(out: &mut Vec<u8>, typ: &[u8], payload: &[u8])
    requires
        payload@.len() + 8 <= u64::MAX,
    ensures
        final(out)@ == old(out)@ + box_bytes(typ@, payload@),
{
    let mut b: Vec<u8> = Vec::new();
    push_be32(&mut b, payload.len() as u64 + 8);
    assert(b@ =~= be32_bytes(payload@.len() as int + 8));
    push_bytes(&mut b, typ);
    push_bytes(&mut b, payload);
    push_bytes(out, &b);
}

fn bmff_box_large(out: &mut Vec<u8>, typ: &[u8], payload: &[u8])
    requires
        payload@.len() + 16 <= u64::MAX,
    ensures
        final(out)@ == old(out)@ + large_box_bytes(typ@, payload@),
{
    let n: u64 = payload.len() as u64 + 16;
    let mut b: Vec<u8> = Vec::new();
    push_be32(&mut b, 1);
    assert(b@ =~= be32_bytes(1));
    push_bytes(&mut b, typ);
    push_be32(&mut b, n / 0x1_0000_0000);
    push_be32(&mut b, n);
    push_bytes(&mut b, payload);
    push_bytes(out, &b);
}

/// The bytes of a minimal MP4.
pub open spec fn mp4_bytes(mdat_len: int, moov_first: bool, large_mdat: bool) -> Seq<u8> {
    let head = box_bytes(tag_ftyp(), tag_isom() + be32_bytes(0) + tag_isom() + tag_mp42())
        + box_bytes(tag_free(), Seq::new(8, |i: int| 0u8));
    let data = filler(0x3D47, mdat_len);
    let mdat = if large_mdat {
        large_box_bytes(tag_mdat(), data)
    } else {
        box_bytes(tag_mdat(), data)
    };
    let moov = box_bytes(tag_moov(), filler(0x300F, 64));
    if moov_first {
        head + moov + mdat
    } else {
        head + mdat + moov
    }
}

/// Minimal MP4: ftyp + free + mdat(payload) + moov. `moov_first` swaps the
/// mdat/moov order (faststart layout); `large_mdat` uses a 64-bit box size.
pub fn minimal_mp4(mdat_len: usize, moov_first: bool, large_mdat: bool) -> (out: Vec<u8>)
    requires
        mdat_len + 16 <= u64::MAX,
    ensures
        out@ == mp4_bytes(mdat_len as int, moov_first, large_mdat),
{
    let mut out: Vec<u8> = Vec::new();
    let mut brands: Vec<u8> = Vec::new();
    push_tag_isom(&mut brands);
    assert(brands@ =~= tag_isom());
    push_be32(&mut brands, 0);
    push_tag_isom(&mut brands);
    push_tag_mp42(&mut brands);
    let mut typ: Vec<u8> = Vec::new();
    push_tag_ftyp(&mut typ);
    assert(typ@ =~= tag_ftyp());
    bmff_box(&mut out, &typ, &brands);
    let mut typ: Vec<u8> = Vec::new();
    push_tag_free(&mut typ);
    assert(typ@ =~= tag_free());
    let free: Vec<u8> = vec![0u8; 8];
    assert(free@ =~= Seq::new(8, |i: int| 0u8));
    assert(out@ =~= box_bytes(tag_ftyp(), tag_isom() + be32_bytes(0) + tag_isom() + tag_mp42()));
    bmff_box(&mut out, &typ, &free);
    let mdat: Vec<u8> = filled(0x3D47, mdat_len);
    let moov: Vec<u8> = filled(0x300F, 64);
    let mut mdat_tag: Vec<u8> = Vec::new();
    push_tag_mdat(&mut mdat_tag);
    assert(mdat_tag@ =~= tag_mdat());
    let mut moov_tag: Vec<u8> = Vec::new();
    push_tag_moov(&mut moov_tag);
    assert(moov_tag@ =~= tag_moov());
    if moov_first {
        bmff_box(&mut out, &moov_tag, &moov);
    }
    if large_mdat {
        bmff_box_large(&mut out, &mdat_tag, &mdat);
    } else {
        bmff_box(&mut out, &mdat_tag, &mdat);
    }
    if !moov_first {
        bmff_box(&mut out, &moov_tag, &moov);
    }
    out
}

/// The bytes of a minimal HEIC.
pub open spec fn heic_bytes(mdat_len: int) -> Seq<u8> {
    box_bytes(tag_ftyp(), tag_heic() + be32_bytes(0) + tag_mif1() + tag_heic()) + box_bytes(
        tag_meta(),
        Seq::new(32, |i: int| 0u8),
    ) + box_bytes(tag_mdat(), filler(0x4E1C, mdat_len))
}

/// Minimal HEIC: ftyp(heic) + meta + mdat.
pub fn minimal_heic(mdat_len: usize) -> (out: Vec<u8>)
    requires
        mdat_len + 8 <= u64::MAX,
    ensures
        out@ == heic_bytes(mdat_len as int),
{
    let mut out: Vec<u8> = Vec::new();
    let mut brands: Vec<u8> = Vec::new();
    push_tag_heic(&mut brands);
    assert(brands@ =~= tag_heic());
    push_be32(&mut brands, 0);
    push_tag_mif1(&mut brands);
    push_tag_heic(&mut brands);
    let mut typ: Vec<u8> = Vec::new();
    push_tag_ftyp(&mut typ);
    assert(typ@ =~= tag_ftyp());
    bmff_box(&mut out, &typ, &brands);
    assert(out@ =~= box_bytes(tag_ftyp(), tag_heic() + be32_bytes(0) + tag_mif1() + tag_heic()));
    let mut typ: Vec<u8> = Vec::new();
    push_tag_meta(&mut typ);
    assert(typ@ =~= tag_meta());
    let meta: Vec<u8> = vec![0u8; 32];
    assert(meta@ =~= Seq::new(32, |i: int| 0u8));
    bmff_box(&mut out, &typ, &meta);
    let mut typ: Vec<u8> = Vec::new();
    push_tag_mdat(&mut typ);
    assert(typ@ =~= tag_mdat());
    bmff_box(&mut out, &typ, &filled(0x4E1C, mdat_len));
    out
}

/// The bytes of a minimal MOV.
pub open spec fn mov_bytes(mdat_len: int) -> Seq<u8> {
    box_bytes(tag_ftyp(), tag_qt() + be32_bytes(0) + tag_qt()) + box_bytes(tag_wide(), Seq::empty())
        + box_bytes(tag_mdat(), filler(0x0A07, mdat_len)) + box_bytes(
        tag_moov(),
        filler(0xA00F, 48),
    )
}

/// Minimal QuickTime MOV: ftyp(qt) + wide + mdat + moov.
pub fn minimal_mov(mdat_len: usize) -> (out: Vec<u8>)
    requires
        mdat_len + 8 <= u64::MAX,
    ensures
        out@ == mov_bytes(mdat_len as int),
{
    let mut out: Vec<u8> = Vec::new();
    let mut brands: Vec<u8> = Vec::new();
    push_tag_qt(&mut brands);
    assert(brands@ =~= tag_qt());
    push_be32(&mut brands, 0);
    push_tag_qt(&mut brands);
    let mut typ: Vec<u8> = Vec::new();
    push_tag_ftyp(&mut typ);
    assert(typ@ =~= tag_ftyp());
    bmff_box(&mut out, &typ, &brands);
    assert(out@ =~= box_bytes(tag_ftyp(), tag_qt() + be32_bytes(0) + tag_qt()));
    let mut typ: Vec<u8> = Vec::new();
    push_tag_wide(&mut typ);
    assert(typ@ =~= tag_wide());
    let none: Vec<u8> = Vec::new();
    assert(none@ =~= Seq::empty());
    bmff_box(&mut out, &typ, &none);
    let mut typ: Vec<u8> = Vec::new();
    push_tag_mdat(&mut typ);
    assert(typ@ =~= tag_mdat());
    bmff_box(&mut out, &typ, &filled(0x0A07, mdat_len));
    let mut typ: Vec<u8> = Vec::new();
    push_tag_moov(&mut typ);
    assert(typ@ =~= tag_moov());
    bmff_box(&mut out, &typ, &filled(0xA00F, 48));
    out
}

/// Filler of lower-case letters.
pub open spec fn letters(seed: u64, n: int) -> Seq<u8> {
    Seq::new(n as nat, |i: int| (0x61 + filler(seed, n)[i] % 26) as u8)
}

/// Some characters below 128 as bytes.
pub open spec fn ascii(s: Seq<char>) -> Seq<u8> {
    Seq::new(s.len(), |i: int| s[i] as u8)
}

/// The bytes of a minimal PDF.
pub open spec fn pdf_bytes(body_len: int) -> Seq<u8> {
    pdf_start() + pdf_object() + ascii(digits_of(body_len, 10)) + pdf_stream() + letters(
        0x9D4F,
        body_len,
    ) + pdf_stream_end() + pdf_trailer() + pdf_update()
}

/// Minimal PDF with two %%EOF (incremental update), ending at the last.
pub fn minimal_pdf(body_len: usize) -> (out: Vec<u8>)
    ensures
        out@ == pdf_bytes(body_len as int),
{
    let mut out: Vec<u8> = Vec::new();
    push_pdf_start(&mut out);
    assert(out@ =~= pdf_start());
    let mut body: Vec<u8> = filled(0x9D4F, body_len);
    let mut i: usize = 0;
    while i < body_len
        invariant
            i <= body_len,
            body@.len() == body_len,
            forall|k: int|
                0 <= k < i ==> #[trigger] body@[k] == letters(0x9D4F, body_len as int)[k],
            forall|k: int|
                i <= k < body_len ==> #[trigger] body@[k] == filler(0x9D4F, body_len as int)[k],
        decreases body_len - i,
    {
        let b: u8 = body[i];
        body.set(i, 0x61 + b % 26);  // printable stream filler
        i = i + 1;
    }
    assert(body@ =~= letters(0x9D4F, body_len as int));
    push_pdf_object(&mut out);
    let digits: Vec<char> = write_digits(body_len as u64, 10);
    let mut number: Vec<u8> = Vec::new();
    let mut k: usize = 0;
    while k < digits.len()
        invariant
            k <= digits@.len(),
            number@.len() == k,
            forall|j: int| 0 <= j < k ==> #[trigger] number@[j] == digits@[j] as u8,
        decreases digits@.len() - k,
    {
        number.push(digits[k] as u8);
        k = k + 1;
    }
    assert(number@ =~= ascii(digits@));
    push_bytes(&mut out, &number);
    push_pdf_stream(&mut out);
    push_bytes(&mut out, &body);
    push_pdf_stream_end(&mut out);
    push_pdf_trailer(&mut out);
    push_pdf_update(&mut out);
    out
}

/// `disk` with `data` at `off`.
pub open spec fn with_plant(disk: Seq<u8>, off: int, data: Seq<u8>) -> Seq<u8> {
    Seq::new(
        disk.len(),
        |i: int|
            if off <= i < off + data.len() {
                data[i - off]
            } else {
                disk[i]
            },
    )
}

/// `disk` with the first `n` plants, one after the other.
pub open spec fn with_plants(disk: Seq<u8>, plants: Seq<(u64, &[u8])>, n: int) -> Seq<u8>
    decreases n,
{
    if n <= 0 {
        disk
    } else {
        with_plant(
            with_plants(disk, plants, n - 1),
            plants[n - 1].0 as int,
            plants[n - 1].1@,
        )
    }
}

/// A synthetic disk: deterministic filler with files planted at fixed
/// offsets.
pub fn build_disk(size: usize, plants: &[(u64, &[u8])]) -> (disk: Vec<u8>)
    requires
        forall|k: int|
            0 <= k < plants@.len() ==> (#[trigger] plants@[k]).0 + plants@[k].1@.len() <= size,
    ensures
        disk@ == with_plants(filler(0xD15C, size as int), plants@, plants@.len() as int),
{
    let mut disk: Vec<u8> = filled(0xD15C, size);
    let ghost blank = disk@;
    let n: usize = plants.len();
    let mut k: usize = 0;
    while k < n
        invariant
            k <= n,
            n == plants@.len(),
            blank == filler(0xD15C, size as int),
            disk@.len() == size,
            disk@ == with_plants(blank, plants@, k as int),
            forall|k: int|
                0 <= k < plants@.len() ==> (#[trigger] plants@[k]).0 + plants@[k].1@.len() <= size,
        decreases n - k,
    {
        let off: usize = plants[k].0 as usize;
        let data: &[u8] = plants[k].1;
        let len: usize = data.len();
        let ghost before = disk@;
        assert(plants@[k as int].0 + plants@[k as int].1@.len() <= size);
        let mut i: usize = 0;
        while i < len
            invariant
                i <= len,
                len == data@.len(),
                off + len <= size,
                disk@.len() == size,
                before.len() == size,
                forall|j: int|
                    0 <= j < size ==> #[trigger] disk@[j] == if off <= j < off + i {
                        data@[j - off]
                    } else {
                        before[j]
                    },
            decreases len - i,
        {
            disk.set(off + i, data[i]);
            i = i + 1;
        }
        assert(disk@ =~= with_plant(before, off as int, data@));
        k = k + 1;
    }
    disk
}

/// What is planted stands where it was planted, but for what later plants
/// cover; elsewhere the disk is as it was.
pub proof fn lemma_plants_stand(disk: Seq<u8>, plants: Seq<(u64, &[u8])>, n: int, k: int, i: int)
    requires
        0 <= n <= plants.len(),
        -1 <= k < n,
        0 <= i < disk.len(),
        k >= 0 ==> plants[k].0 <= i < plants[k].0 + plants[k].1@.len(),
        forall|j: int|
            k < j < n ==> !((#[trigger] plants[j]).0 <= i < plants[j].0 + plants[j].1@.len()),
    ensures
        with_plants(disk, plants, n).len() == disk.len(),
        with_plants(disk, plants, n)[i] == if k < 0 {
            disk[i]
        } else {
            plants[k].1@[i - plants[k].0]
        },
    decreases n,
{
    if n > 0 {
        if k < n - 1 {
            assert(!(plants[n - 1].0 <= i < plants[n - 1].0 + plants[n - 1].1@.len()));
            lemma_plants_stand(disk, plants, n - 1, k, i);
        } else {
            lemma_disk_len(disk, plants, n - 1);
        }
    }
}

proof fn lemma_disk_len(disk: Seq<u8>, plants: Seq<(u64, &[u8])>, n: int)
    ensures
        with_plants(disk, plants, n).len() == disk.len(),
    decreases n,
{
    if n > 0 {
        lemma_disk_len(disk, plants, n - 1);
    }
}

} // verus!
