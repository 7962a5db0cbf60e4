//! Substring search in an input that is read piece by piece.

use super::bytes::{room, stands_at};
use super::carver::{available, read_full, ReadAt};
use std::io;
use vstd::prelude::*;

verus! {

/// Specifies `memchr::memmem::find`: it returns the index of the first
/// occurrence of the needle in the haystack, and nothing when there is
/// none.
pub assume_specification[ memchr::memmem::find ](haystack: &[u8], needle: &[u8]) -> (r: Option<
    usize,
>)
    ensures
        match r {
            Some(i) => stands_at(haystack@, i as int, needle@) && forall|j: int|
                0 <= j < i ==> !#[trigger] stands_at(haystack@, j, needle@),
            None => forall|j: int| 0 <= j ==> !#[trigger] stands_at(haystack@, j, needle@),
        },
;

/// The first place of `w` in `d` from `from` on that ends by `to`.
pub open spec fn first_at(d: Seq<u8>, w: Seq<u8>, from: int, to: int) -> Option<int>
    decreases room(from, to),
{
    if from + w.len() > to || from >= to {
        None
    } else if stands_at(d, from, w) {
        Some(from)
    } else {
        first_at(d, w, from + 1, to)
    }
}

/// The last place of `w` in `d` from `from` on that ends by `to`.
pub open spec fn last_at(d: Seq<u8>, w: Seq<u8>, from: int, to: int) -> Option<int>
    decreases room(from, to),
{
    if from + w.len() > to || from >= to {
        None
    } else if stands_at(d, to - w.len(), w) {
        Some(to - w.len())
    } else {
        last_at(d, w, from, to - 1)
    }
}

/// `w` stands nowhere in `d` from `a` up to before `b`.
pub open spec fn absent(d: Seq<u8>, w: Seq<u8>, a: int, b: int) -> bool {
    forall|j: int| a <= j < b ==> !#[trigger] stands_at(d, j, w)
}

/// A search may start behind places where the word does not stand.
pub proof fn lemma_first_at_skip(d: Seq<u8>, w: Seq<u8>, from: int, mid: int, to: int)
    requires
        from <= mid,
        absent(d, w, from, mid),
        w.len() > 0,
    ensures
        first_at(d, w, from, to) == first_at(d, w, mid, to),
    decreases mid - from,
{
    if from < mid {
        if from + w.len() <= to {
            assert(!stands_at(d, from, w));
            lemma_first_at_skip(d, w, from + 1, mid, to);
        }
    }
}

/// What `first_at` finds lies in the searched range.
pub proof fn lemma_first_at_in_range(d: Seq<u8>, w: Seq<u8>, from: int, to: int)
    ensures
        first_at(d, w, from, to) matches Some(i) ==> from <= i && i + w.len() <= to && stands_at(
            d,
            i,
            w,
        ),
    decreases room(from, to),
{
    if from + w.len() <= to && from < to && !stands_at(d, from, w) {
        lemma_first_at_in_range(d, w, from + 1, to);
    }
}

/// A search upwards from the end may start below places where the word does
/// not stand.
pub proof fn lemma_last_at_skip(d: Seq<u8>, w: Seq<u8>, from: int, mid: int, to: int)
    requires
        from <= mid <= to,
        w.len() > 0,
        absent(d, w, mid - w.len() + 1, to - w.len() + 1),
    ensures
        last_at(d, w, from, to) == last_at(d, w, from, mid),
    decreases to - mid,
{
    if mid < to {
        if from + w.len() <= to {
            assert(!stands_at(d, to - w.len(), w));
            lemma_last_at_skip(d, w, from, mid, to - 1);
        }
    }
}

/// What `last_at` finds lies in the searched range.
pub proof fn lemma_last_at_in_range(d: Seq<u8>, w: Seq<u8>, from: int, to: int)
    ensures
        last_at(d, w, from, to) matches Some(i) ==> from <= i && i + w.len() <= to,
    decreases room(from, to),
{
    if from + w.len() <= to && from < to && !stands_at(d, to - w.len(), w) {
        lemma_last_at_in_range(d, w, from, to - 1);
    }
}

/// A search that finds nothing shows that the word is absent.
pub proof fn lemma_not_found(d: Seq<u8>, w: Seq<u8>, from: int, to: int)
    requires
        w.len() > 0,
        first_at(d, w, from, to) is None,
    ensures
        absent(d, w, from, to - w.len() + 1),
    decreases room(from, to),
{
    if from + w.len() <= to {
        lemma_not_found(d, w, from + 1, to);
        assert forall|j: int| from <= j < to - w.len() + 1 implies !#[trigger] stands_at(
            d,
            j,
            w,
        ) by {
            if j > from {
                assert(absent(d, w, from + 1, to - w.len() + 1));
            }
        }
    }
}

/// A word stands in a piece of `d` exactly where it stands in `d`.
pub proof fn lemma_in_piece(d: Seq<u8>, pos: int, piece: Seq<u8>, w: Seq<u8>, j: int)
    requires
        is_piece(d, pos, piece),
        w.len() > 0,
        0 <= j,
    ensures
        stands_at(piece, j, w) <==> j + w.len() <= piece.len() && stands_at(d, pos + j, w),
{
    if j + w.len() <= piece.len() {
        assert(piece.subrange(j, j + w.len()) =~= d.subrange(pos + j, pos + j + w.len()));
    }
}

/// `piece` holds the bytes of `d` from `pos` on.
pub open spec fn is_piece(d: Seq<u8>, pos: int, piece: Seq<u8>) -> bool {
    &&& 0 <= pos
    &&& piece.len() > 0 ==> pos + piece.len() <= d.len()
    &&& forall|j: int| 0 <= j < piece.len() ==> #[trigger] piece[j] == d[pos + j]
}

/// Up to `n` bytes from `offset` on.
pub fn piece_at<R: ReadAt>(r: &mut R, offset: u64, n: usize) -> (res: io::Result<Vec<u8>>)
    ensures
        final(r).contents() == old(r).contents(),
        old(r).reliable() ==> final(r).reliable() && res is Ok,
        res matches Ok(v) ==> is_piece(old(r).contents(), offset as int, v@) && v@.len()
            == available(old(r).contents().len() as int, offset as int, n as int),
{
    let mut v: Vec<u8> = vec![0u8; n];
    match read_full(r, offset, v.as_mut_slice()) {
        Ok(got) => {
            v.truncate(got);
            Ok(v)
        },
        Err(e) => Err(e),
    }
}

/// How much of the input is searched at a time.
pub const PIECE: usize = 0x1_0000;

/// The first place of `w` from `from` on that ends by `to`.
pub fn find_first<R: ReadAt>(r: &mut R, w: &[u8], from: u64, to: u64) -> (res: io::Result<
    Option<u64>,
>)
    requires
        0 < w@.len() < PIECE,
        to <= old(r).contents().len(),
    ensures
        final(r).contents() == old(r).contents(),
        old(r).reliable() ==> final(r).reliable() && res is Ok,
        match res {
            Ok(Some(i)) => first_at(old(r).contents(), w@, from as int, to as int) == Some(
                i as int,
            ),
            Ok(None) => first_at(old(r).contents(), w@, from as int, to as int) is None,
            Err(_) => true,
        },
{
    let ghost d = r.contents();
    let keep: usize = w.len() - 1;
    let mut pos: u64 = from;
    while pos < to && (to - pos) as u64 > keep as u64
        invariant
            d == old(r).contents(),
            r.contents() == d,
            old(r).reliable() ==> r.reliable(),
            to <= d.len(),
            keep == w@.len() - 1,
            0 < w@.len() < PIECE,
            first_at(d, w@, from as int, to as int) == first_at(d, w@, pos as int, to as int),
        decreases room(pos as int, to as int),
    {
        let left: u64 = to - pos;
        let want: usize = if left < PIECE as u64 {
            left as usize
        } else {
            PIECE
        };
        let piece: Vec<u8> = match piece_at(r, pos, want) {
            Ok(v) => v,
            Err(e) => {
                return Err(e);
            },
        };
        proof {
            assert forall|j: int| 0 <= j implies #[trigger] stands_at(piece@, j, w@) == (j
                + w@.len() <= piece@.len() && stands_at(d, pos + j, w@)) by {
                lemma_in_piece(d, pos as int, piece@, w@, j);
            }
        }
        match memchr::memmem::find(piece.as_slice(), w) {
            Some(i) => {
                proof {
                    assert forall|j: int| pos <= j < pos + i implies !#[trigger] stands_at(
                        d,
                        j,
                        w@,
                    ) by {
                        assert(!stands_at(piece@, j - pos, w@));
                    }
                    lemma_first_at_skip(d, w@, pos as int, pos + i, to as int);
                }
                return Ok(Some(pos + i as u64));
            },
            None => {
                proof {
                    assert forall|j: int|
                        pos <= j < pos + want - keep implies !#[trigger] stands_at(d, j, w@) by {
                        assert(!stands_at(piece@, j - pos, w@));
                    }
                    lemma_first_at_skip(d, w@, pos as int, pos + want - keep, to as int);
                }
                // Overlap, so that a word split across pieces is not missed.
                pos = pos + (want - keep) as u64;
            },
        }
    }
    Ok(None)
}

/// The last place of `w` from `from` on that ends by `to`.
pub fn find_last<R: ReadAt>(r: &mut R, w: &[u8], from: u64, to: u64) -> (res: io::Result<
    Option<u64>,
>)
    requires
        0 < w@.len() < PIECE,
        to <= old(r).contents().len(),
        to < u64::MAX,
    ensures
        final(r).contents() == old(r).contents(),
        old(r).reliable() ==> final(r).reliable() && res is Ok,
        match res {
            Ok(Some(i)) => last_at(old(r).contents(), w@, from as int, to as int) == Some(
                i as int,
            ),
            Ok(None) => last_at(old(r).contents(), w@, from as int, to as int) is None,
            Err(_) => true,
        },
{
    let ghost d = r.contents();
    let ghost n = w@.len();
    let mut last: Option<u64> = None;
    let mut pos: u64 = from;
    loop
        invariant
            d == old(r).contents(),
            r.contents() == d,
            old(r).reliable() ==> r.reliable(),
            n == w@.len(),
            0 < n < PIECE,
            to <= d.len(),
            to < u64::MAX,
            from <= pos,
            match last {
                Some(i) => from <= i && i < pos && i + n <= to && stands_at(d, i as int, w@)
                    && absent(d, w@, i + 1, pos as int),
                None => absent(d, w@, from as int, pos as int),
            },
        decreases room(pos as int, to as int),
    {
        match find_first(r, w, pos, to) {
            Ok(Some(i)) => {
                proof {
                    lemma_first_at_in_range(d, w@, pos as int, to as int);
                }
                last = Some(i);
                pos = i + 1;
            },
            Ok(None) => {
                proof {
                    lemma_not_found(d, w@, pos as int, to as int);
                    match last {
                        Some(i) => {
                            assert forall|j: int| i + 1 <= j < to - n + 1 implies !#[trigger] stands_at(
                                d,
                                j,
                                w@,
                            ) by {}
                            lemma_last_at_skip(d, w@, from as int, i + n, to as int);
                        },
                        None => {
                            assert forall|j: int| from <= j < to - n + 1 implies !#[trigger] stands_at(
                                d,
                                j,
                                w@,
                            ) by {}
                            if from + n <= to {
                                lemma_last_at_skip(d, w@, from as int, from + n - 1, to as int);
                            }
                        },
                    }
                }
                return Ok(last);
            },
            Err(e) => {
                return Err(e);
            },
        }
    }
}

} // verus!
