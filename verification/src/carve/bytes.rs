//! Bytes and numbers at offsets of an input.

use vstd::prelude::*;

verus! {

/// The `n` bytes from `p` on lie in `d`.
pub open spec fn holds(d: Seq<u8>, p: int, n: int) -> bool {
    0 <= p && 0 <= n && p + n <= d.len()
}

/// How far it is from `pos` up to `end`, if `end` lies ahead.
pub open spec fn room(pos: int, end: int) -> nat {
    if pos < end {
        (end - pos) as nat
    } else {
        0
    }
}

/// The smaller of two numbers.
pub open spec fn smaller(a: int, b: int) -> int {
    if a < b {
        a
    } else {
        b
    }
}

/// `w` stands at `p` in `d`.
pub open spec fn stands_at(d: Seq<u8>, p: int, w: Seq<u8>) -> bool {
    holds(d, p, w.len() as int) && d.subrange(p, p + w.len()) == w
}

pub open spec fn le16(d: Seq<u8>, p: int) -> int {
    d[p] + 0x100 * d[p + 1]
}

pub open spec fn be16(d: Seq<u8>, p: int) -> int {
    0x100 * d[p] + d[p + 1]
}

pub open spec fn le32(d: Seq<u8>, p: int) -> int {
    le16(d, p) + 0x1_0000 * le16(d, p + 2)
}

pub open spec fn be32(d: Seq<u8>, p: int) -> int {
    0x1_0000 * be16(d, p) + be16(d, p + 2)
}

pub open spec fn le64(d: Seq<u8>, p: int) -> int {
    le32(d, p) + 0x1_0000_0000 * le32(d, p + 4)
}

pub open spec fn be64(d: Seq<u8>, p: int) -> int {
    0x1_0000_0000 * be32(d, p) + be32(d, p + 4)
}

pub fn get_le16(v: &[u8], at: usize) -> (r: u16)
    requires
        at + 2 <= v@.len(),
    ensures
        r == le16(v@, at as int),
{
    v[at] as u16 + 0x100 * v[at + 1] as u16
}

pub fn get_be16(v: &[u8], at: usize) -> (r: u16)
    requires
        at + 2 <= v@.len(),
    ensures
        r == be16(v@, at as int),
{
    0x100 * v[at] as u16 + v[at + 1] as u16
}

pub fn get_le32(v: &[u8], at: usize) -> (r: u32)
    requires
        at + 4 <= v@.len(),
    ensures
        r == le32(v@, at as int),
{
    assert(v.len() <= usize::MAX);
    get_le16(v, at) as u32 + 0x1_0000 * get_le16(v, at + 2) as u32
}

pub fn get_be32(v: &[u8], at: usize) -> (r: u32)
    requires
        at + 4 <= v@.len(),
    ensures
        r == be32(v@, at as int),
{
    assert(v.len() <= usize::MAX);
    0x1_0000 * get_be16(v, at) as u32 + get_be16(v, at + 2) as u32
}

pub fn get_le64(v: &[u8], at: usize) -> (r: u64)
    requires
        at + 8 <= v@.len(),
    ensures
        r == le64(v@, at as int),
{
    assert(v.len() <= usize::MAX);
    get_le32(v, at) as u64 + 0x1_0000_0000 * get_le32(v, at + 4) as u64
}

pub fn get_be64(v: &[u8], at: usize) -> (r: u64)
    requires
        at + 8 <= v@.len(),
    ensures
        r == be64(v@, at as int),
{
    assert(v.len() <= usize::MAX);
    0x1_0000_0000 * get_be32(v, at) as u64 + get_be32(v, at + 4) as u64
}

/// Whether `w` stands at `at` in `v`.
pub fn is_at(v: &[u8], at: usize, w: &[u8]) -> (r: bool)
    ensures
        r == stands_at(v@, at as int, w@),
{
    let n: usize = w.len();
    let have: usize = v.len();
    if at > have || n > have - at {
        return false;
    }
    let mut i: usize = 0;
    while i < n
        invariant
            i <= n,
            n == w@.len(),
            have == v@.len(),
            at + n <= have,
            forall|j: int| 0 <= j < i ==> v@[at + j] == #[trigger] w@[j],
        decreases n - i,
    {
        if v[at + i] != w[i] {
            assert(v@.subrange(at as int, at + n)[i as int] != w@[i as int]);
            return false;
        }
        i = i + 1;
    }
    assert(v@.subrange(at as int, at + n) =~= w@);
    true
}

/// Where the search for the end of a file that starts at `start` stops: at
/// the longest file or at the end of the input.
pub fn search_limit(start: u64, max_len: u64, total: u64) -> (r: u64)
    requires
        start + max_len <= u64::MAX,
    ensures
        r == smaller(start + max_len, total as int),
{
    let end: u64 = start + max_len;
    if end < total {
        end
    } else {
        total
    }
}

} // verus!
