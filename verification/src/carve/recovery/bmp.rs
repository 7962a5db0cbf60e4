//! BMP images.

use super::{carved, lemma_magic, lemma_word, little32};
use crate::carve::carver::{BuiltinCarver, Carver};
use crate::carve::formats::bmp::Bmp;
use vstd::prelude::*;

verus! {

/// A BMP starts at `p`: "BM", and the size of one of the known headers behind
/// the file header of 14 bytes.
pub open spec fn image_at(d: Seq<u8>, p: int) -> bool {
    let header = little32(d, p + 14);
    &&& 0 <= p
    &&& p + 18 <= d.len()
    &&& d[p] == 0x42
    &&& d[p + 1] == 0x4D
    &&& header == 12 || header == 40 || header == 52 || header == 56 || header == 64 || header
        == 108 || header == 124
}

/// A BMP has the length that it tells, if its pixels are where they can be:
/// behind the headers and before that end. Otherwise it is none.
pub proof fn lemma_bmp_tells_its_length(d: Seq<u8>, start: int)
    requires
        image_at(d, start),
    ensures
        ({
            let len = little32(d, start + 2);
            let pixels = little32(d, start + 10);
            carved(
                BuiltinCarver::Bmp(Bmp),
                d,
                start,
                if 14 + little32(d, start + 14) <= pixels && pixels < len && len <= 268435456 {
                    Some((len, "bmp"@))
                } else {
                    None
                },
            )
        }),
{
    let c = BuiltinCarver::Bmp(Bmp);
    lemma_word(d, start, c.signature().magics[0]);
    assert(start + c.signature().magic_offset == start);
    lemma_magic(c, d, start, 0);
}

/// Nothing else is carved as a BMP.
pub proof fn lemma_no_bmp(d: Seq<u8>, start: int)
    requires
        0 <= start,
        !image_at(d, start),
    ensures
        crate::carve::hit(BuiltinCarver::Bmp(Bmp), d, start) is None,
{
    let c = BuiltinCarver::Bmp(Bmp);
    let w = c.signature().magics[0];
    lemma_word(d, start, w);
    assert(start + c.signature().magic_offset == start);
    if crate::carve::bytes::stands_at(d, start, w) {
        assert(d[start + 0] == w[0] && d[start + 1] == w[1]);
    }
}

} // verus!
