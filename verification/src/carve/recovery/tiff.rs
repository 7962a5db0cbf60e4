//! TIFF images and the camera formats that build on them.

use super::{big16, big32, carved, four, lemma_four, lemma_magic, little16, little32};
use crate::carve::bytes::smaller;
use crate::carve::carver::{BuiltinCarver, Carver};
use crate::carve::formats::tiff::{not_above, size_of_type, Place, Tiff, Walked};
use vstd::prelude::*;

verus! {

/// A TIFF starts at `start`: "II" and 42 with the low bytes first, or "MM" and
/// 42 with the high bytes first.
pub open spec fn image_at(d: Seq<u8>, start: int) -> bool {
    four(d, start, 0x49, 0x49, 0x2A, 0x00) || four(d, start, 0x4D, 0x4D, 0x00, 0x2A)
}

/// The bytes `[p, p + n)` of the file that starts at `start` are in the
/// input.
pub open spec fn present(d: Seq<u8>, start: int, p: int, n: int) -> bool {
    0 <= start + p && start + p + n <= d.len()
}

/// The 16-bit number at `p` of the file, in the byte order that the file
/// starts with.
pub open spec fn short(d: Seq<u8>, start: int, p: int) -> int {
    if d[start] == 0x49 {
        little16(d, start + p)
    } else {
        big16(d, start + p)
    }
}

/// The 32-bit number at `p` of the file.
pub open spec fn long(d: Seq<u8>, start: int, p: int) -> int {
    if d[start] == 0x49 {
        little32(d, start + p)
    } else {
        big32(d, start + p)
    }
}

/// Places from this one on are not in the file: behind the input, or behind
/// the longest file.
pub open spec fn bound(d: Seq<u8>, start: int) -> int {
    if d.len() - start < 2147483648 {
        d.len() - start
    } else {
        2147483648
    }
}

/// A directory is at `p`: a number of entries, the entries of 12 bytes each,
/// and the place of the next directory.
pub open spec fn directory(d: Seq<u8>, start: int, p: int) -> bool {
    let n = short(d, start, p);
    &&& 0 < p < bound(d, start)
    &&& present(d, start, p, 2)
    &&& 0 < n <= 4096
    &&& present(d, start, p, 2 + 12 * n + 4)
}

/// The `i`-th entry of the directory at `p`.
pub open spec fn entry(p: int, i: int) -> int {
    p + 2 + 12 * i
}

/// The bytes of a value of an entry's type: of bytes and characters 1, of
/// shorts 2, of longs and floats 4, of fractions and doubles 8.
pub open spec fn value_size(t: int) -> int {
    if t == 1 || t == 2 || t == 6 || t == 7 {
        1
    } else if t == 3 || t == 8 {
        2
    } else if t == 4 || t == 9 || t == 11 || t == 13 {
        4
    } else if t == 5 || t == 10 || t == 12 || t == 16 || t == 17 || t == 18 {
        8
    } else {
        0
    }
}

/// Where the `j`-th number of the entry at `e` is: its values are in the entry itself
/// where they take at most four bytes, and where it points otherwise.
pub open spec fn number_place(d: Seq<u8>, start: int, e: int, j: int) -> int {
    let size = value_size(short(d, start, e + 2));
    let count = long(d, start, e + 4);
    let skipped = if size == 2 {
        2 * j
    } else {
        4 * j
    };
    if size * count <= 4 {
        e + 8 + skipped
    } else {
        long(d, start, e + 8) + skipped
    }
}

/// The entry at `e` lists numbers of 16 or 32 bits, which can all be read.
pub open spec fn lists_numbers(d: Seq<u8>, start: int, e: int) -> bool {
    let size = value_size(short(d, start, e + 2));
    let count = long(d, start, e + 4);
    &&& present(d, start, e, 8)
    &&& size * count > 4 ==> present(d, start, e, 12)
    &&& size == 2 || size == 4
    &&& count <= 65536
    &&& forall|j: int|
        0 <= j < count ==> present(d, start, #[trigger] number_place(d, start, e, j), size)
}

/// The `j`-th number that the entry at `e` lists.
pub open spec fn listed(d: Seq<u8>, start: int, e: int, j: int) -> int {
    if value_size(short(d, start, e + 2)) == 2 {
        short(d, start, number_place(d, start, e, j))
    } else {
        long(d, start, number_place(d, start, e, j))
    }
}

/// The entry has offsets of image data: strip offsets or tile offsets.
pub open spec fn is_offsets(tag: int) -> bool {
    tag == 273 || tag == 324
}

/// The entry has sizes of image data: strip or tile byte counts.
pub open spec fn is_counts(tag: int) -> bool {
    tag == 279 || tag == 325
}

/// The directory at `p` refers to data that ends at `end`: its own table,
/// the values of an entry that do not fit in it, or image data, a strip or
/// tile of which has its offset in the last list of offsets and its size in
/// the last list of byte counts.
pub open spec fn refers(d: Seq<u8>, start: int, p: int, end: int) -> bool {
    ||| end == p + 2 + 12 * short(d, start, p) + 4
    ||| exists|i: int|
        0 <= i < short(d, start, p) && values_end(d, start, #[trigger] entry(p, i), end)
    ||| exists|i: int, k: int, j: int| #[trigger] data_end(d, start, p, i, k, j, end)
}

/// The values of the entry at `e` are out of line and end at `end`.
pub open spec fn values_end(d: Seq<u8>, start: int, e: int, end: int) -> bool {
    let total = value_size(short(d, start, e + 2)) * long(d, start, e + 4);
    present(d, start, e, 12) && total > 4 && end == long(d, start, e + 8) + total
}

/// The `j`-th piece of image data ends at `end`; the offsets are in the
/// `i`-th entry of the directory at `p`, the byte counts in the `k`-th.
pub open spec fn data_end(
    d: Seq<u8>,
    start: int,
    p: int,
    i: int,
    k: int,
    j: int,
    end: int,
) -> bool {
    let n = short(d, start, p);
    &&& present(d, start, p, 12 * n - 2)
    &&& 0 <= i < n
    &&& 0 <= k < n
    &&& is_offsets(short(d, start, entry(p, i)))
    &&& is_counts(short(d, start, entry(p, k)))
    &&& forall|x: int|
        i < x < n ==> !is_offsets(short(d, start, #[trigger] entry(p, x)))
    &&& forall|x: int|
        k < x < n ==> !is_counts(short(d, start, #[trigger] entry(p, x)))
    &&& lists_numbers(d, start, entry(p, i))
    &&& lists_numbers(d, start, entry(p, k))
    &&& 0 <= j < long(d, start, entry(p, i) + 4)
    &&& j < long(d, start, entry(p, k) + 4)
    &&& end == listed(d, start, entry(p, i), j) + listed(d, start, entry(p, k), j)
}

/// The place of the next directory that the one at `p` tells.
pub open spec fn next_of(d: Seq<u8>, start: int, p: int) -> int {
    long(d, start, p + 2 + 12 * short(d, start, p))
}

/// The directory at `p` has an entry, the `i`-th, that leads to another
/// directory at `q`: one of its sub-directories, or its Exif directory.
pub open spec fn sub_link(d: Seq<u8>, start: int, p: int, i: int, q: int) -> bool {
    let e = entry(p, i);
    &&& 0 <= i < short(d, start, p)
    &&& present(d, start, e, 8)
    &&& {
        ||| short(d, start, e) == 330 && lists_numbers(d, start, e) && exists|j: int|
            0 <= j < long(d, start, e + 4) && q == #[trigger] listed(d, start, e, j)
        ||| short(d, start, e) == 34665 && present(d, start, e, 12) && q == long(d, start, e + 8)
    }
}

/// The directory at `p` leads to the one at `q`: as the next one, or through
/// an entry.
pub open spec fn leads(d: Seq<u8>, start: int, p: int, q: int) -> bool {
    ||| present(d, start, p, 2 + 12 * short(d, start, p) + 4) && q == next_of(d, start, p)
    ||| exists|i: int| #[trigger] sub_link(d, start, p, i, q)
}

/// The place at which the directories are read.
spec fn place(d: Seq<u8>, start: int) -> Place {
    Place {
        d,
        start,
        le: d[start] == 0x49 && d[start + 1] == 0x49,
        limit: smaller(crate::carve::formats::tiff::MAX_LEN as int, d.len() - start),
    }
}

proof fn lemma_reads(d: Seq<u8>, start: int, p: int)
    requires
        image_at(d, start),
    ensures
        place(d, start).short(p) == if present(d, start, p, 2) {
            Some(short(d, start, p))
        } else {
            None
        },
        place(d, start).long(p) == if present(d, start, p, 4) {
            Some(long(d, start, p))
        } else {
            None
        },
        place(d, start).limit == bound(d, start),
        present(d, start, p, 2) ==> 0 <= short(d, start, p) <= 65535,
        present(d, start, p, 4) ==> 0 <= long(d, start, p) <= 4294967295,
{
}

proof fn lemma_sizes(t: int)
    ensures
        value_size(t) == size_of_type(t),
        0 <= value_size(t) <= 8,
{
}

proof fn lemma_values(d: Seq<u8>, start: int, e: int)
    requires
        image_at(d, start),
        present(d, start, e, 8),
    ensures
        ({
            let count = long(d, start, e + 4);
            let values = place(d, start).values(short(d, start, e + 2), count, e + 8);
            &&& count >= 0
            &&& lists_numbers(d, start, e) ==> values is Some
            &&& values matches Some(s) ==> s.len() == count && (count > 0 ==> lists_numbers(
                d,
                start,
                e,
            )) && forall|j: int| 0 <= j < count ==> #[trigger] s[j] == listed(d, start, e, j)
        }),
{
    let pl = place(d, start);
    let t = short(d, start, e + 2);
    let count = long(d, start, e + 4);
    let size = value_size(t);
    lemma_sizes(t);
    lemma_reads(d, start, e + 4);
    lemma_reads(d, start, e + 8);
    let base = pl.values_base(size, count, e + 8)->0;
    let based = pl.values_base(size, count, e + 8) is Some;
    assert forall|j: int| based && 0 <= j < count && (size == 2 || size == 4) implies {
        &&& number_place(d, start, e, j) == base + if size == 2 {
            2 * j
        } else {
            4 * j
        }
        &&& (#[trigger] pl.value(base, size, j) is Some) == present(
            d,
            start,
            number_place(d, start, e, j),
            size,
        )
        &&& pl.value(base, size, j) is Some ==> pl.value(base, size, j) == Some(
            listed(d, start, e, j),
        )
    } by {
        lemma_reads(d, start, base + 2 * j);
        lemma_reads(d, start, base + 4 * j);
    }
    let values = pl.values(t, count, e + 8);
    if lists_numbers(d, start, e) {
        assert forall|j: int| 0 <= j < count implies #[trigger] pl.value(base, size, j) is Some by {
            assert(present(d, start, number_place(d, start, e, j), size));
        }
        assert(values is Some);
    }
    if let Some(s) = values {
        if count > 0 {
            assert(pl.value(base, size, 0) is Some);
            assert(size == 2 || size == 4);
            assert forall|j: int| 0 <= j < count implies present(
                d,
                start,
                #[trigger] number_place(d, start, e, j),
                size,
            ) by {
                assert(pl.value(base, size, j) is Some);
            }
            assert(lists_numbers(d, start, e));
            assert forall|j: int| 0 <= j < count implies #[trigger] s[j] == listed(
                d,
                start,
                e,
                j,
            ) by {
                assert(pl.value(base, size, j) is Some);
            }
        }
    }
}

// What is noted is not forgotten.

proof fn lemma_strips(p: Place, w: Walked, offsets: Seq<int>, counts: Seq<int>, n: int)
    ensures
        p.strips_noted(w, offsets, counts, n).max_end >= w.max_end,
        p.strips_noted(w, offsets, counts, n).left == w.left,
        forall|j: int|
            0 <= j < n && #[trigger] offsets[j] + counts[j] <= p.limit ==> p.strips_noted(
                w,
                offsets,
                counts,
                n,
            ).max_end >= offsets[j] + counts[j],
        p.strips_noted(w, offsets, counts, n).max_end == w.max_end || exists|j: int|
            0 <= j < n && p.strips_noted(w, offsets, counts, n).max_end == #[trigger] offsets[j]
                + counts[j],
    decreases n,
{
    if n > 0 {
        lemma_strips(p, w, offsets, counts, n - 1);
        let before = p.strips_noted(w, offsets, counts, n - 1).max_end;
        let after = p.strips_noted(w, offsets, counts, n).max_end;
        assert forall|j: int| 0 <= j < n && #[trigger] offsets[j] + counts[j]
            <= p.limit implies after >= offsets[j] + counts[j] by {
            if j < n - 1 {
                assert(before >= offsets[j] + counts[j]);
            }
        }
        if after != before {
            assert(after == offsets[n - 1] + counts[n - 1]);
        } else if before != w.max_end {
            let j = choose|j: int|
                0 <= j < n - 1 && before == #[trigger] offsets[j] + counts[j];
            assert(after == offsets[j] + counts[j]);
        }
    }
}

spec fn grows(a: Walked, b: Walked) -> bool {
    a.max_end <= b.max_end && b.left <= a.left
}

proof fn lemma_walk_grows(p: Place, w: Walked, ifd: int)
    ensures
        grows(w, p.walk(w, ifd)),
    decreases w.left, 0int, 0int,
{
    if !(w.left == 0 || ifd == 0 || ifd >= p.limit) {
        let entered = Walked { max_end: w.max_end, left: (w.left - 1) as nat };
        match p.short(ifd) {
            Some(n) if 0 < n <= 4096 => {
                lemma_entries_grow(p, entered, ifd + 2, n, 0, None, None);
                match p.entries(entered, ifd + 2, n, 0, None, None) {
                    (done, Some((offsets, counts))) => {
                        let table_end = ifd + 2 + 12 * n;
                        let strips = match (offsets, counts) {
                            (Some(o), Some(c)) => {
                                let k = smaller(o.len() as int, c.len() as int);
                                lemma_strips(p, done, o, c, k);
                                p.strips_noted(done, o, c, k)
                            },
                            _ => done,
                        };
                        let noted = p.noted(strips, table_end + 4);
                        if let Some(next) = p.long(table_end) {
                            lemma_walk_grows(p, not_above(noted, entered.left), next);
                        }
                    },
                    _ => {},
                }
            },
            _ => {},
        }
    }
}

proof fn lemma_entries_grow(
    p: Place,
    w: Walked,
    table: int,
    n: int,
    i: int,
    offsets: Option<Seq<int>>,
    counts: Option<Seq<int>>,
)
    ensures
        grows(w, p.entries(w, table, n, i, offsets, counts).0),
    decreases w.left, 2int, n - i,
{
    let e = table + 12 * i;
    if i < n {
        match (p.short(e), p.short(e + 2), p.long(e + 4)) {
            (Some(tag), Some(t), Some(count)) => {
                let noted = not_above(p.entry_noted(w, e), w.left);
                let values = p.values(t, count, e + 8);
                lemma_entries_grow(p, noted, table, n, i + 1, values, counts);
                lemma_entries_grow(p, noted, table, n, i + 1, offsets, values);
                let after = match (values, p.long(e + 8)) {
                    (Some(ifds), _) if tag == 330 => {
                        lemma_subs_grow(p, noted, ifds, 0);
                        p.subs(noted, ifds, 0)
                    },
                    (_, Some(ifd)) if tag == 34665 => {
                        lemma_walk_grows(p, noted, ifd);
                        p.walk(noted, ifd)
                    },
                    _ => noted,
                };
                lemma_entries_grow(
                    p,
                    not_above(after, noted.left),
                    table,
                    n,
                    i + 1,
                    offsets,
                    counts,
                );
            },
            _ => {},
        }
    }
}

proof fn lemma_subs_grow(p: Place, w: Walked, ifds: Seq<int>, j: int)
    ensures
        grows(w, p.subs(w, ifds, j)),
    decreases w.left, 1int, ifds.len() - j,
{
    if 0 <= j < ifds.len() {
        lemma_walk_grows(p, w, ifds[j]);
        lemma_subs_grow(p, not_above(p.walk(w, ifds[j]), w.left), ifds, j + 1);
    }
}

/// What the walk makes of the `i`-th entry of a directory.
spec fn after_entry(d: Seq<u8>, start: int, w: Walked, p: int, i: int) -> Walked {
    let pl = place(d, start);
    let e = entry(p, i);
    let noted = pl.entry_noted(w, e);
    let tag = short(d, start, e);
    let values = pl.values(short(d, start, e + 2), long(d, start, e + 4), e + 8);
    if tag == 330 && values is Some {
        pl.subs(noted, values->0, 0)
    } else if tag == 34665 && present(d, start, e, 12) {
        pl.walk(noted, long(d, start, e + 8))
    } else {
        noted
    }
}

/// The numbers of the `i`-th entry.
spec fn numbers(d: Seq<u8>, start: int, p: int, i: int) -> Option<Seq<int>> {
    let e = entry(p, i);
    place(d, start).values(short(d, start, e + 2), long(d, start, e + 4), e + 8)
}

/// The walk through the entries takes one entry after the other.
proof fn lemma_one_entry(
    d: Seq<u8>,
    start: int,
    w: Walked,
    p: int,
    n: int,
    i: int,
    offsets: Option<Seq<int>>,
    counts: Option<Seq<int>>,
)
    requires
        image_at(d, start),
        0 <= i < n,
        present(d, start, entry(p, i), 8),
    ensures
        ({
            let tag = short(d, start, entry(p, i));
            place(d, start).entries(w, p + 2, n, i, offsets, counts) == place(d, start).entries(
                after_entry(d, start, w, p, i),
                p + 2,
                n,
                i + 1,
                if is_offsets(tag) {
                    numbers(d, start, p, i)
                } else {
                    offsets
                },
                if is_counts(tag) {
                    numbers(d, start, p, i)
                } else {
                    counts
                },
            )
        }),
        grows(w, after_entry(d, start, w, p, i)),
        forall|end: int|
            end <= bound(d, start) && #[trigger] values_end(d, start, entry(p, i), end)
                ==> after_entry(d, start, w, p, i).max_end >= end,
{
    let pl = place(d, start);
    let e = entry(p, i);
    lemma_reads(d, start, e);
    lemma_reads(d, start, e + 2);
    lemma_reads(d, start, e + 4);
    lemma_reads(d, start, e + 8);
    lemma_sizes(short(d, start, e + 2));
    let noted = pl.entry_noted(w, e);
    assert(noted == not_above(noted, w.left));
    if let Some(s) = numbers(d, start, p, i) {
        lemma_subs_grow(pl, noted, s, 0);
    }
    lemma_walk_grows(pl, noted, long(d, start, e + 8));
}

/// The last list of offsets, or else of byte counts, from the `i`-th entry
/// on; `before` where there is none.
spec fn latest(
    d: Seq<u8>,
    start: int,
    p: int,
    n: int,
    i: int,
    offsets: bool,
    before: Option<Seq<int>>,
) -> Option<Seq<int>>
    decreases n - i,
{
    if i >= n {
        before
    } else {
        latest(
            d,
            start,
            p,
            n,
            i + 1,
            offsets,
            if is_kind(offsets, short(d, start, entry(p, i))) {
                numbers(d, start, p, i)
            } else {
                before
            },
        )
    }
}

spec fn is_kind(offsets: bool, tag: int) -> bool {
    if offsets {
        is_offsets(tag)
    } else {
        is_counts(tag)
    }
}

proof fn lemma_latest(
    d: Seq<u8>,
    start: int,
    p: int,
    n: int,
    i: int,
    offsets: bool,
    before: Option<Seq<int>>,
    x: int,
)
    requires
        0 <= i <= n,
        x < n,
        forall|y: int|
            x < y < n ==> !is_kind(offsets, short(d, start, #[trigger] entry(p, y))),
        i <= x ==> is_kind(offsets, short(d, start, entry(p, x))),
    ensures
        i <= x ==> latest(d, start, p, n, i, offsets, before) == numbers(d, start, p, x),
        i > x ==> latest(d, start, p, n, i, offsets, before) == before,
    decreases n - i,
{
    if i < n {
        let more = if is_kind(offsets, short(d, start, entry(p, i))) {
            numbers(d, start, p, i)
        } else {
            before
        };
        if i > x {
            assert(!is_kind(offsets, short(d, start, entry(p, i))));
        }
        lemma_latest(d, start, p, n, i + 1, offsets, more, x);
    }
}

/// Where the last list comes from.
proof fn lemma_latest_from(
    d: Seq<u8>,
    start: int,
    p: int,
    n: int,
    i: int,
    offsets: bool,
    before: Option<Seq<int>>,
) -> (x: int)
    requires
        0 <= i <= n,
    ensures
        i - 1 <= x < n,
        x < i ==> latest(d, start, p, n, i, offsets, before) == before,
        x >= i ==> is_kind(offsets, short(d, start, entry(p, x))) && latest(
            d,
            start,
            p,
            n,
            i,
            offsets,
            before,
        ) == numbers(d, start, p, x),
        forall|y: int|
            x < y < n ==> !is_kind(offsets, short(d, start, #[trigger] entry(p, y))),
    decreases n - i,
{
    if i < n {
        let here = is_kind(offsets, short(d, start, entry(p, i)));
        let more = if here {
            numbers(d, start, p, i)
        } else {
            before
        };
        let x = lemma_latest_from(d, start, p, n, i + 1, offsets, more);
        if x == i && !here {
            assert forall|y: int| i - 1 < y < n implies !is_kind(
                offsets,
                short(d, start, #[trigger] entry(p, y)),
            ) by {}
            i - 1
        } else {
            x
        }
    } else {
        i - 1
    }
}

/// What the walk makes of the entries from the `i`-th on.
spec fn after_entries(d: Seq<u8>, start: int, w: Walked, p: int, n: int, i: int) -> Walked
    decreases n - i,
{
    if i >= n {
        w
    } else {
        after_entries(d, start, after_entry(d, start, w, p, i), p, n, i + 1)
    }
}

proof fn lemma_all_entries(
    d: Seq<u8>,
    start: int,
    w: Walked,
    p: int,
    n: int,
    i: int,
    offsets: Option<Seq<int>>,
    counts: Option<Seq<int>>,
)
    requires
        image_at(d, start),
        0 <= i <= n,
        present(d, start, p, 12 * n - 2),
        p >= 0,
    ensures
        ({
            let r = after_entries(d, start, w, p, n, i);
            &&& place(d, start).entries(w, p + 2, n, i, offsets, counts) == (
                r,
                Some(
                    (
                        latest(d, start, p, n, i, true, offsets),
                        latest(d, start, p, n, i, false, counts),
                    ),
                ),
            )
            &&& grows(w, r)
            &&& forall|x: int, end: int|
                i <= x < n && end <= bound(d, start) && #[trigger] values_end(
                    d,
                    start,
                    entry(p, x),
                    end,
                ) ==> r.max_end >= end
        }),
    decreases n - i,
{
    if i < n {
        lemma_one_entry(d, start, w, p, n, i, offsets, counts);
        let tag = short(d, start, entry(p, i));
        let o = if is_offsets(tag) {
            numbers(d, start, p, i)
        } else {
            offsets
        };
        let c = if is_counts(tag) {
            numbers(d, start, p, i)
        } else {
            counts
        };
        lemma_all_entries(d, start, after_entry(d, start, w, p, i), p, n, i + 1, o, c);
    }
}

/// What the walk makes of the directory at `p` itself, before it goes on to
/// the next one.
spec fn after_directory(d: Seq<u8>, start: int, w: Walked, p: int) -> Walked {
    let n = short(d, start, p);
    let entered = Walked { max_end: w.max_end, left: (w.left - 1) as nat };
    let done = after_entries(d, start, entered, p, n, 0);
    let strips = match (
        latest(d, start, p, n, 0, true, None),
        latest(d, start, p, n, 0, false, None),
    ) {
        (Some(o), Some(c)) => place(d, start).strips_noted(
            done,
            o,
            c,
            smaller(o.len() as int, c.len() as int),
        ),
        _ => done,
    };
    place(d, start).noted(strips, p + 2 + 12 * n + 4)
}

/// The walk notes all that a directory refers to, and goes on to the next.
#[verifier::rlimit(40)]
proof fn lemma_directory(d: Seq<u8>, start: int, w: Walked, p: int)
    requires
        image_at(d, start),
        directory(d, start, p),
        w.left > 0,
    ensures
        ({
            let n = short(d, start, p);
            let entered = Walked { max_end: w.max_end, left: (w.left - 1) as nat };
            let r = after_directory(d, start, w, p);
            &&& place(d, start).walk(w, p) == place(d, start).walk(r, next_of(d, start, p))
            &&& r.left == after_entries(d, start, entered, p, n, 0).left
            &&& r.max_end >= after_entries(d, start, entered, p, n, 0).max_end
            &&& grows(entered, r)
            &&& forall|end: int|
                end <= bound(d, start) && #[trigger] refers(d, start, p, end) ==> r.max_end >= end
        }),
{
    let n = short(d, start, p);
    let entered = Walked { max_end: w.max_end, left: (w.left - 1) as nat };
    let r = after_directory(d, start, w, p);
    lemma_reads(d, start, p);
    lemma_reads(d, start, p + 2 + 12 * n);
    lemma_all_entries(d, start, entered, p, n, 0, None, None);
    let done = after_entries(d, start, entered, p, n, 0);
    let o = latest(d, start, p, n, 0, true, None);
    let c = latest(d, start, p, n, 0, false, None);
    if o is Some && c is Some {
        lemma_strips(
            place(d, start),
            done,
            o->0,
            c->0,
            smaller(o->0.len() as int, c->0.len() as int),
        );
    }
    assert(r == not_above(r, entered.left));
    assert forall|end: int|
        end <= bound(d, start) && #[trigger] refers(d, start, p, end) implies r.max_end >= end by {
        if exists|i: int, k: int, j: int| #[trigger] data_end(d, start, p, i, k, j, end) {
            let (i, k, j) = choose|i: int, k: int, j: int| #[trigger]
                data_end(d, start, p, i, k, j, end);
            lemma_latest(d, start, p, n, 0, true, None, i);
            lemma_latest(d, start, p, n, 0, false, None, k);
            lemma_values(d, start, entry(p, i));
            lemma_values(d, start, entry(p, k));
            assert(o->0[j] + c->0[j] == end);
        } else if exists|i: int|
            0 <= i < short(d, start, p) && values_end(d, start, #[trigger] entry(p, i), end) {
            let i = choose|i: int|
                0 <= i < short(d, start, p) && values_end(d, start, #[trigger] entry(p, i), end);
            assert(values_end(d, start, entry(p, i), end));
        }
    }
}

// All that is noted is referred to.

/// A directory is at `p`, though the input may end within it.
pub open spec fn directory_starts(d: Seq<u8>, start: int, p: int) -> bool {
    &&& 0 < p < bound(d, start)
    &&& present(d, start, p, 2)
    &&& 0 < short(d, start, p) <= 4096
}

/// Directories of which each leads to the following one.
pub open spec fn trail(d: Seq<u8>, start: int, ps: Seq<int>) -> bool {
    &&& ps.len() >= 1
    &&& forall|k: int| #![trigger ps[k]] 0 <= k < ps.len() ==> directory_starts(d, start, ps[k])
    &&& forall|k: int| #![trigger ps[k]] 0 <= k < ps.len() - 1 ==> leads(d, start, ps[k], ps[k + 1])
}

/// The directory at `p` leads to one that refers to data that ends at `end`,
/// or is that one; there are at most `n` directories on the way.
pub open spec fn leads_to_data(d: Seq<u8>, start: int, p: int, end: int, n: int) -> bool {
    exists|ps: Seq<int>| #[trigger]
        trail(d, start, ps) && ps.len() <= n && ps[0] == p && refers(d, start, ps.last(), end)
}

proof fn lemma_own_data(d: Seq<u8>, start: int, p: int, end: int, n: int)
    requires
        directory_starts(d, start, p),
        refers(d, start, p, end),
        n >= 1,
    ensures
        leads_to_data(d, start, p, end, n),
{
    let ps = seq![p];
    assert(trail(d, start, ps));
    assert(ps.last() == p);
}

proof fn lemma_data_behind(d: Seq<u8>, start: int, p: int, q: int, end: int, m: int, n: int)
    requires
        directory_starts(d, start, p),
        leads(d, start, p, q),
        leads_to_data(d, start, q, end, m),
        m < n,
    ensures
        leads_to_data(d, start, p, end, n),
{
    let qs = choose|qs: Seq<int>| #[trigger]
        trail(d, start, qs) && qs.len() <= m && qs[0] == q && refers(d, start, qs.last(), end);
    let ps = seq![p] + qs;
    assert forall|k: int| #![trigger ps[k]] 0 <= k < ps.len() implies directory_starts(
        d,
        start,
        ps[k],
    ) by {
        if k > 0 {
            assert(ps[k] == qs[k - 1]);
        }
    }
    assert forall|k: int| #![trigger ps[k]] 0 <= k < ps.len() - 1 implies leads(
        d,
        start,
        ps[k],
        ps[k + 1],
    ) by {
        assert(ps[k + 1] == qs[k]);
        if k > 0 {
            assert(ps[k] == qs[k - 1]);
            assert(leads(d, start, qs[k - 1], qs[k - 1 + 1]));
        }
    }
    assert(trail(d, start, ps));
    assert(ps.last() == qs.last());
}

/// The end that was noted from `w` on to `r` is one that the directory at
/// `p` leads to by at most `n` directories.
spec fn grounded(d: Seq<u8>, start: int, p: int, w: Walked, r: Walked, n: int) -> bool {
    r.max_end == w.max_end || (r.max_end <= bound(d, start) && leads_to_data(
        d,
        start,
        p,
        r.max_end,
        n,
    ))
}

#[verifier::rlimit(40)]
proof fn lemma_walk_is_grounded(d: Seq<u8>, start: int, w: Walked, ifd: int)
    requires
        image_at(d, start),
        ifd >= 0,
    ensures
        grounded(d, start, ifd, w, place(d, start).walk(w, ifd), w.left as int),
    decreases w.left, 0int, 0int,
{
    let pl = place(d, start);
    lemma_reads(d, start, ifd);
    if !(w.left == 0 || ifd == 0 || ifd >= pl.limit) {
        let entered = Walked { max_end: w.max_end, left: (w.left - 1) as nat };
        match pl.short(ifd) {
            Some(n) if 0 < n <= 4096 => {
                lemma_entries_are_grounded(
                    d,
                    start,
                    entered,
                    ifd,
                    n,
                    0,
                    None,
                    None,
                    w.left as int,
                );
                lemma_entries_grow(pl, entered, ifd + 2, n, 0, None, None);
                match pl.entries(entered, ifd + 2, n, 0, None, None) {
                    (done, Some((offsets, counts))) => {
                        let table_end = ifd + 2 + 12 * n;
                        lemma_reads(d, start, table_end);
                        let strips = match (offsets, counts) {
                            (Some(o), Some(c)) => {
                                let k = smaller(o.len() as int, c.len() as int);
                                lemma_strips(pl, done, o, c, k);
                                lemma_strips_are_grounded(
                                    d,
                                    start,
                                    done,
                                    ifd,
                                    n,
                                    o,
                                    c,
                                    w.left as int,
                                );
                                pl.strips_noted(done, o, c, k)
                            },
                            _ => done,
                        };
                        let noted = pl.noted(strips, table_end + 4);
                        if noted.max_end != strips.max_end {
                            assert(refers(d, start, ifd, noted.max_end));
                            lemma_own_data(d, start, ifd, noted.max_end, w.left as int);
                        }
                        if let Some(next) = pl.long(table_end) {
                            let last = not_above(noted, entered.left);
                            lemma_walk_is_grounded(d, start, last, next);
                            let r = pl.walk(last, next);
                            if r.max_end != last.max_end {
                                assert(leads(d, start, ifd, next));
                                lemma_data_behind(
                                    d,
                                    start,
                                    ifd,
                                    next,
                                    r.max_end,
                                    last.left as int,
                                    w.left as int,
                                );
                            }
                        }
                    },
                    _ => {},
                }
            },
            _ => {},
        }
    }
}

proof fn lemma_strips_bounded(p: Place, w: Walked, offsets: Seq<int>, counts: Seq<int>, n: int)
    ensures
        ({
            let r = p.strips_noted(w, offsets, counts, n);
            r.max_end == w.max_end || r.max_end <= p.limit
        }),
    decreases n,
{
    if n > 0 {
        lemma_strips_bounded(p, w, offsets, counts, n - 1);
    }
}

proof fn lemma_strips_are_grounded(
    d: Seq<u8>,
    start: int,
    w: Walked,
    p: int,
    n: int,
    o: Seq<int>,
    c: Seq<int>,
    most: int,
)
    requires
        most >= 1,
        image_at(d, start),
        directory_starts(d, start, p),
        n == short(d, start, p),
        present(d, start, p, 12 * n - 2),
        latest(d, start, p, n, 0, true, None) == Some(o),
        latest(d, start, p, n, 0, false, None) == Some(c),
    ensures
        grounded(
            d,
            start,
            p,
            w,
            place(d, start).strips_noted(w, o, c, smaller(o.len() as int, c.len() as int)),
            most,
        ),
{
    let pl = place(d, start);
    let m = smaller(o.len() as int, c.len() as int);
    let r = pl.strips_noted(w, o, c, m);
    lemma_strips(pl, w, o, c, m);
    lemma_strips_bounded(pl, w, o, c, m);
    lemma_reads(d, start, p);
    if r.max_end != w.max_end {
        let j = choose|j: int| 0 <= j < m && r.max_end == #[trigger] o[j] + c[j];
        let i = lemma_latest_from(d, start, p, n, 0, true, None);
        let k = lemma_latest_from(d, start, p, n, 0, false, None);
        lemma_values(d, start, entry(p, i));
        lemma_values(d, start, entry(p, k));
        assert forall|x: int| i < x < n implies !is_offsets(
            short(d, start, #[trigger] entry(p, x)),
        ) by {
            assert(!is_kind(true, short(d, start, entry(p, x))));
        }
        assert forall|x: int| k < x < n implies !is_counts(
            short(d, start, #[trigger] entry(p, x)),
        ) by {
            assert(!is_kind(false, short(d, start, entry(p, x))));
        }
        assert(data_end(d, start, p, i, k, j, r.max_end));
        lemma_own_data(d, start, p, r.max_end, most);
    }
}

#[verifier::rlimit(40)]
proof fn lemma_entries_are_grounded(
    d: Seq<u8>,
    start: int,
    w: Walked,
    p: int,
    n: int,
    i: int,
    offsets: Option<Seq<int>>,
    counts: Option<Seq<int>>,
    most: int,
)
    requires
        w.left < most,
        image_at(d, start),
        directory_starts(d, start, p),
        n == short(d, start, p),
        0 <= i <= n,
        i > 0 ==> present(d, start, p, 12 * i - 2),
    ensures
        ({
            let r = place(d, start).entries(w, p + 2, n, i, offsets, counts);
            &&& grounded(d, start, p, w, r.0, most)
            &&& r.1 matches Some((o, c)) ==> present(d, start, p, 12 * n - 2) && o == latest(
                d,
                start,
                p,
                n,
                i,
                true,
                offsets,
            ) && c == latest(d, start, p, n, i, false, counts)
        }),
    decreases w.left, 2int, n - i,
{
    let pl = place(d, start);
    let e = entry(p, i);
    if i < n {
        lemma_reads(d, start, e);
        lemma_reads(d, start, e + 2);
        lemma_reads(d, start, e + 4);
        lemma_reads(d, start, e + 8);
        lemma_sizes(short(d, start, e + 2));
        if present(d, start, e, 8) {
            let noted = pl.entry_noted(w, e);
            let tag = short(d, start, e);
            if noted.max_end != w.max_end {
                assert(values_end(d, start, entry(p, i), noted.max_end));
                assert(refers(d, start, p, noted.max_end));
                lemma_own_data(d, start, p, noted.max_end, most);
            }
            lemma_one_entry(d, start, w, p, n, i, offsets, counts);
            let after = after_entry(d, start, w, p, i);
            if tag == 330 {
                if let Some(s) = numbers(d, start, p, i) {
                    lemma_subs_are_grounded(d, start, noted, p, i, s, 0, most);
                }
            } else if tag == 34665 && present(d, start, e, 12) {
                let q = long(d, start, e + 8);
                lemma_walk_is_grounded(d, start, noted, q);
                if after.max_end != noted.max_end {
                    assert(sub_link(d, start, p, i, q));
                    lemma_data_behind(d, start, p, q, after.max_end, noted.left as int, most);
                }
            }
            let o = if is_offsets(tag) {
                numbers(d, start, p, i)
            } else {
                offsets
            };
            let c = if is_counts(tag) {
                numbers(d, start, p, i)
            } else {
                counts
            };
            lemma_entries_are_grounded(d, start, after, p, n, i + 1, o, c, most);
        }
    }
}

proof fn lemma_subs_are_grounded(
    d: Seq<u8>,
    start: int,
    w: Walked,
    p: int,
    i: int,
    s: Seq<int>,
    j: int,
    most: int,
)
    requires
        w.left < most,
        image_at(d, start),
        directory_starts(d, start, p),
        0 <= i < short(d, start, p),
        present(d, start, entry(p, i), 8),
        short(d, start, entry(p, i)) == 330,
        numbers(d, start, p, i) == Some(s),
        0 <= j,
    ensures
        grounded(d, start, p, w, place(d, start).subs(w, s, j), most),
    decreases w.left, 1int, s.len() - j,
{
    let pl = place(d, start);
    let e = entry(p, i);
    if j < s.len() {
        lemma_values(d, start, e);
        let q = s[j];
        assert(q == listed(d, start, e, j));
        assert(q >= 0) by {
            lemma_reads(d, start, number_place(d, start, e, j));
        }
        let r = pl.walk(w, q);
        lemma_walk_grows(pl, w, q);
        lemma_walk_is_grounded(d, start, w, q);
        if r.max_end != w.max_end {
            assert(sub_link(d, start, p, i, q));
            lemma_data_behind(d, start, p, q, r.max_end, w.left as int, most);
        }
        lemma_subs_are_grounded(d, start, r, p, i, s, j + 1, most);
    }
}

/// No more is carved than the image refers to: the length of the file is
/// the end of data that some directory refers to, and the first directory
/// leads to that one by at most 64 directories.
pub proof fn lemma_length_is_referred_to(d: Seq<u8>, start: int)
    requires
        image_at(d, start),
        Tiff.measured(d, start) is Some,
    ensures
        long(d, start, 4) >= 8,
        leads_to_data(d, start, long(d, start, 4), (Tiff.measured(d, start)->0).0, 64),
        14 < (Tiff.measured(d, start)->0).0 <= bound(d, start),
{
    let w = Walked { max_end: 8, left: 64 };
    lemma_reads(d, start, 4);
    lemma_walk_is_grounded(d, start, w, long(d, start, 4));
}

/// Nothing is carved where the header is cut off, or points into itself.
pub proof fn lemma_no_image(d: Seq<u8>, start: int)
    requires
        image_at(d, start),
        !present(d, start, 0, 12) || long(d, start, 4) < 8,
    ensures
        carved(BuiltinCarver::Tiff(Tiff), d, start, None),
{
    lemma_reads(d, start, 4);
}

// A chain of directories.

/// No entry of the directory at `p` is for sub-directories.
pub open spec fn is_plain(d: Seq<u8>, start: int, p: int) -> bool {
    forall|i: int|
        0 <= i < short(d, start, p) ==> short(d, start, #[trigger] entry(p, i)) != 330 && short(
            d,
            start,
            entry(p, i),
        ) != 34665
}

proof fn lemma_plain(d: Seq<u8>, start: int, w: Walked, p: int, n: int, i: int)
    requires
        0 <= i <= n,
        n == short(d, start, p),
        is_plain(d, start, p),
    ensures
        after_entries(d, start, w, p, n, i).left == w.left,
    decreases n - i,
{
    if i < n {
        assert(short(d, start, entry(p, i)) != 330);
        lemma_plain(d, start, after_entry(d, start, w, p, i), p, n, i + 1);
    }
}

proof fn lemma_chain_from(
    d: Seq<u8>,
    start: int,
    w: Walked,
    ps: Seq<int>,
    k: int,
    m: int,
    end: int,
)
    requires
        image_at(d, start),
        0 <= k <= m < ps.len(),
        forall|x: int|
            #![trigger ps[x]]
            0 <= x < ps.len() ==> directory(d, start, ps[x]) && is_plain(d, start, ps[x]),
        forall|x: int|
            #![trigger ps[x]]
            0 <= x < ps.len() - 1 ==> ps[x + 1] == next_of(d, start, ps[x]),
        w.left >= ps.len() - k,
        refers(d, start, ps[m], end),
        end <= bound(d, start),
    ensures
        place(d, start).walk(w, ps[k]).max_end >= end,
    decreases m - k,
{
    let p = ps[k];
    lemma_directory(d, start, w, p);
    let entered = Walked { max_end: w.max_end, left: (w.left - 1) as nat };
    lemma_plain(d, start, entered, p, short(d, start, p), 0);
    let r = after_directory(d, start, w, p);
    lemma_walk_grows(place(d, start), r, next_of(d, start, p));
    if k < m {
        assert(ps[k + 1] == next_of(d, start, p));
        lemma_chain_from(d, start, r, ps, k + 1, m, end);
    }
}

proof fn lemma_start(d: Seq<u8>, start: int)
    requires
        image_at(d, start),
    ensures
        crate::carve::has_magic(BuiltinCarver::Tiff(Tiff).signature(), d, start),
{
    let c = BuiltinCarver::Tiff(Tiff);
    lemma_four(d, start, 0x49, 0x49, 0x2A, 0x00);
    lemma_four(d, start, 0x4D, 0x4D, 0x00, 0x2A);
    assert(start + c.signature().magic_offset == start);
    if four(d, start, 0x49, 0x49, 0x2A, 0x00) {
        lemma_magic(c, d, start, 0);
    } else {
        lemma_magic(c, d, start, 1);
    }
}

/// The file at `start` is carved, and data that ends at `end` is in it; "CR"
/// behind the header marks the raw format of Canon.
pub open spec fn carved_to(d: Seq<u8>, start: int, end: int) -> bool {
    &&& Tiff.measured(d, start) matches Some((len, extension)) && len >= end && len <= bound(
        d,
        start,
    ) && extension == if d[start + 8] == 0x43 && d[start + 9] == 0x52 {
        "cr2"@
    } else {
        "tif"@
    }
    &&& crate::carve::hit(BuiltinCarver::Tiff(Tiff), d, start) == Tiff.measured(d, start)
}

/// All pages of an image are carved: in a chain of up to 64 directories, each
/// of which tells the place of the next, all data that any of them refers
/// to is in the file, if it is in the input and within the longest file.
pub proof fn lemma_all_pages_are_carved(d: Seq<u8>, start: int, ps: Seq<int>, m: int, end: int)
    requires
        image_at(d, start),
        present(d, start, 0, 12),
        1 <= ps.len() <= 64,
        ps[0] >= 8,
        ps[0] == long(d, start, 4),
        forall|x: int|
            #![trigger ps[x]]
            0 <= x < ps.len() ==> directory(d, start, ps[x]) && is_plain(d, start, ps[x]),
        forall|x: int|
            #![trigger ps[x]]
            0 <= x < ps.len() - 1 ==> ps[x + 1] == next_of(d, start, ps[x]),
        0 <= m < ps.len(),
        refers(d, start, ps[m], end),
        end <= bound(d, start),
        end > 14 || ps[0] + 2 + 12 * short(d, start, ps[0]) + 4 <= bound(d, start),
    ensures
        carved_to(d, start, end),
{
    let w = Walked { max_end: 8, left: 64 };
    lemma_reads(d, start, 4);
    lemma_chain_from(d, start, w, ps, 0, m, end);
    if end <= 14 {
        assert(refers(d, start, ps[0], ps[0] + 2 + 12 * short(d, start, ps[0]) + 4));
        lemma_chain_from(
            d,
            start,
            w,
            ps,
            0,
            0,
            ps[0] + 2 + 12 * short(d, start, ps[0]) + 4,
        );
    }
    lemma_walk_is_grounded(d, start, w, ps[0]);
    lemma_start(d, start);
}

// A tree of directories.

/// How many directories the place `q` adds: none where no directory can be,
/// else as many as `sizes` tells for it and all that it leads to.
pub open spec fn cost(d: Seq<u8>, start: int, sizes: Map<int, nat>, q: int) -> nat {
    if q == 0 || q >= bound(d, start) {
        0
    } else {
        sizes[q]
    }
}

/// How many directories the first `j` numbers that the entry at `e` lists
/// add.
pub open spec fn list_cost(d: Seq<u8>, start: int, sizes: Map<int, nat>, e: int, j: int) -> nat
    decreases j,
{
    if j <= 0 {
        0
    } else {
        list_cost(d, start, sizes, e, j - 1) + cost(d, start, sizes, listed(d, start, e, j - 1))
    }
}

/// How many directories the entry at `e` adds.
pub open spec fn entry_cost(d: Seq<u8>, start: int, sizes: Map<int, nat>, e: int) -> nat {
    if short(d, start, e) == 330 && lists_numbers(d, start, e) {
        list_cost(d, start, sizes, e, long(d, start, e + 4))
    } else if short(d, start, e) == 34665 {
        cost(d, start, sizes, long(d, start, e + 8))
    } else {
        0
    }
}

/// How many directories the first `i` entries of the one at `p` add.
pub open spec fn entries_cost(d: Seq<u8>, start: int, sizes: Map<int, nat>, p: int, i: int) -> nat
    decreases i,
{
    if i <= 0 {
        0
    } else {
        entries_cost(d, start, sizes, p, i - 1) + entry_cost(d, start, sizes, entry(p, i - 1))
    }
}

/// `sizes` tells for each of some directories how many there are at most
/// from it on; all that these directories lead to are among them.
pub open spec fn sized(d: Seq<u8>, start: int, sizes: Map<int, nat>) -> bool {
    forall|p: int| #[trigger]
        sizes.contains_key(p) ==> {
            &&& directory(d, start, p)
            &&& sizes[p] >= 1 + entries_cost(d, start, sizes, p, short(d, start, p)) + cost(
                d,
                start,
                sizes,
                next_of(d, start, p),
            )
            &&& forall|q: int| #[trigger]
                leads(d, start, p, q) ==> q == 0 || q >= bound(d, start) || sizes.contains_key(q)
        }
}

/// No directory can be at `q`, or `sizes` has it.
spec fn known(d: Seq<u8>, start: int, sizes: Map<int, nat>, q: int) -> bool {
    q >= 0 && (q == 0 || q >= bound(d, start) || sizes.contains_key(q))
}

proof fn lemma_entries_cost(d: Seq<u8>, start: int, sizes: Map<int, nat>, p: int, i: int, j: int)
    requires
        0 <= i <= j,
    ensures
        entries_cost(d, start, sizes, p, i) <= entries_cost(d, start, sizes, p, j),
    decreases j - i,
{
    if i < j {
        lemma_entries_cost(d, start, sizes, p, i, j - 1);
    }
}

proof fn lemma_list_cost(d: Seq<u8>, start: int, sizes: Map<int, nat>, e: int, i: int, j: int)
    requires
        0 <= i <= j,
    ensures
        list_cost(d, start, sizes, e, i) <= list_cost(d, start, sizes, e, j),
    decreases j - i,
{
    if i < j {
        lemma_list_cost(d, start, sizes, e, i, j - 1);
    }
}

proof fn lemma_sub(
    d: Seq<u8>,
    start: int,
    sizes: Map<int, nat>,
    p: int,
    i: int,
    s: Seq<int>,
    j: int,
)
    requires
        image_at(d, start),
        sized(d, start, sizes),
        sizes.contains_key(p),
        0 <= i < short(d, start, p),
        short(d, start, entry(p, i)) == 330,
        numbers(d, start, p, i) == Some(s),
        0 <= j < s.len(),
    ensures
        known(d, start, sizes, s[j]),
        lists_numbers(d, start, entry(p, i)),
        s.len() == long(d, start, entry(p, i) + 4),
        s[j] == listed(d, start, entry(p, i), j),
{
    let e = entry(p, i);
    lemma_values(d, start, e);
    assert(s[j] == listed(d, start, e, j));
    assert(s[j] >= 0) by {
        lemma_reads(d, start, number_place(d, start, e, j));
    }
    assert(sub_link(d, start, p, i, s[j]));
    assert(leads(d, start, p, s[j]));
}

proof fn lemma_walk_cost(d: Seq<u8>, start: int, sizes: Map<int, nat>, w: Walked, q: int)
    requires
        image_at(d, start),
        sized(d, start, sizes),
        known(d, start, sizes, q),
    ensures
        place(d, start).walk(w, q).left + cost(d, start, sizes, q) >= w.left,
    decreases w.left, 0int, 0int,
{
    lemma_reads(d, start, q);
    if w.left > 0 && q != 0 && q < bound(d, start) {
        let n = short(d, start, q);
        let entered = Walked { max_end: w.max_end, left: (w.left - 1) as nat };
        lemma_directory(d, start, w, q);
        lemma_entries_left(d, start, sizes, entered, q, n, 0);
        let next = next_of(d, start, q);
        lemma_reads(d, start, q + 2 + 12 * n);
        assert(leads(d, start, q, next));
        lemma_walk_cost(d, start, sizes, after_directory(d, start, w, q), next);
    }
}

proof fn lemma_entry_left(d: Seq<u8>, start: int, sizes: Map<int, nat>, w: Walked, p: int, i: int)
    requires
        image_at(d, start),
        sized(d, start, sizes),
        sizes.contains_key(p),
        0 <= i < short(d, start, p),
    ensures
        after_entry(d, start, w, p, i).left + entry_cost(d, start, sizes, entry(p, i)) >= w.left,
        after_entry(d, start, w, p, i).left <= w.left,
    decreases w.left, 2int, 0int,
{
    let e = entry(p, i);
    let noted = place(d, start).entry_noted(w, e);
    lemma_one_entry(d, start, w, p, short(d, start, p), i, None, None);
    lemma_reads(d, start, e + 8);
    if short(d, start, e) == 330 {
        if let Some(s) = numbers(d, start, p, i) {
            lemma_values(d, start, e);
            lemma_subs_left(d, start, sizes, noted, p, i, s, 0);
        }
    } else if short(d, start, e) == 34665 {
        let q = long(d, start, e + 8);
        assert(sub_link(d, start, p, i, q));
        assert(leads(d, start, p, q));
        lemma_walk_cost(d, start, sizes, noted, q);
    }
}

proof fn lemma_entries_left(
    d: Seq<u8>,
    start: int,
    sizes: Map<int, nat>,
    w: Walked,
    p: int,
    n: int,
    i: int,
)
    requires
        image_at(d, start),
        sized(d, start, sizes),
        sizes.contains_key(p),
        n == short(d, start, p),
        0 <= i <= n,
    ensures
        after_entries(d, start, w, p, n, i).left + entries_cost(d, start, sizes, p, n)
            - entries_cost(d, start, sizes, p, i) >= w.left,
    decreases w.left, 3int, n - i,
{
    if i < n {
        lemma_entry_left(d, start, sizes, w, p, i);
        lemma_entries_left(d, start, sizes, after_entry(d, start, w, p, i), p, n, i + 1);
    }
}

proof fn lemma_subs_left(
    d: Seq<u8>,
    start: int,
    sizes: Map<int, nat>,
    w: Walked,
    p: int,
    i: int,
    s: Seq<int>,
    j: int,
)
    requires
        image_at(d, start),
        sized(d, start, sizes),
        sizes.contains_key(p),
        0 <= i < short(d, start, p),
        short(d, start, entry(p, i)) == 330,
        numbers(d, start, p, i) == Some(s),
        0 <= j <= s.len(),
    ensures
        place(d, start).subs(w, s, j).left + list_cost(d, start, sizes, entry(p, i), s.len() as int)
            - list_cost(d, start, sizes, entry(p, i), j) >= w.left,
    decreases w.left, 1int, s.len() - j,
{
    if j < s.len() {
        lemma_sub(d, start, sizes, p, i, s, j);
        lemma_walk_cost(d, start, sizes, w, s[j]);
        let r = place(d, start).walk(w, s[j]);
        lemma_walk_grows(place(d, start), w, s[j]);
        lemma_subs_left(d, start, sizes, r, p, i, s, j + 1);
    }
}

/// What a trail through sized directories needs.
spec fn on_trail(
    d: Seq<u8>,
    start: int,
    sizes: Map<int, nat>,
    ps: Seq<int>,
    k: int,
    end: int,
) -> bool {
    &&& image_at(d, start)
    &&& sized(d, start, sizes)
    &&& trail(d, start, ps)
    &&& 0 <= k < ps.len()
    &&& sizes.contains_key(ps[k])
    &&& refers(d, start, ps.last(), end)
    &&& end <= bound(d, start)
}

proof fn lemma_trail(
    d: Seq<u8>,
    start: int,
    sizes: Map<int, nat>,
    w: Walked,
    ps: Seq<int>,
    k: int,
    end: int,
)
    requires
        on_trail(d, start, sizes, ps, k, end),
        w.left >= sizes[ps[k]],
    ensures
        place(d, start).walk(w, ps[k]).max_end >= end,
    decreases ps.len() - k, 0int, 0int,
{
    let p = ps[k];
    let n = short(d, start, p);
    let entered = Walked { max_end: w.max_end, left: (w.left - 1) as nat };
    let r = after_directory(d, start, w, p);
    let next = next_of(d, start, p);
    lemma_directory(d, start, w, p);
    lemma_walk_grows(place(d, start), r, next);
    lemma_entries_left(d, start, sizes, entered, p, n, 0);
    if k < ps.len() - 1 {
        let q = ps[k + 1];
        assert(leads(d, start, p, q));
        assert(directory_starts(d, start, q));
        assert(sizes.contains_key(q));
        if q == next {
            lemma_trail(d, start, sizes, r, ps, k + 1, end);
        } else {
            let i = choose|i: int| #[trigger] sub_link(d, start, p, i, q);
            lemma_trail_entries(d, start, sizes, entered, p, n, 0, i, ps, k + 1, end);
        }
    }
}

#[verifier::rlimit(40)]
proof fn lemma_trail_entries(
    d: Seq<u8>,
    start: int,
    sizes: Map<int, nat>,
    w: Walked,
    p: int,
    n: int,
    x: int,
    i: int,
    ps: Seq<int>,
    k: int,
    end: int,
)
    requires
        on_trail(d, start, sizes, ps, k, end),
        sizes.contains_key(p),
        n == short(d, start, p),
        0 <= x <= i < n,
        sub_link(d, start, p, i, ps[k]),
        w.left >= entries_cost(d, start, sizes, p, n) - entries_cost(d, start, sizes, p, x),
    ensures
        after_entries(d, start, w, p, n, x).max_end >= end,
    decreases ps.len() - k, 2int, n - x,
{
    let e = entry(p, x);
    let after = after_entry(d, start, w, p, x);
    lemma_entry_left(d, start, sizes, w, p, x);
    lemma_all_entries(d, start, after, p, n, x + 1, None, None);
    if x < i {
        lemma_trail_entries(d, start, sizes, after, p, n, x + 1, i, ps, k, end);
    } else {
        let noted = place(d, start).entry_noted(w, e);
        lemma_entries_cost(d, start, sizes, p, x + 1, n);
        assert(directory_starts(d, start, ps[k]));
        if short(d, start, e) == 330 {
            lemma_values(d, start, e);
            let s = numbers(d, start, p, x)->0;
            let j = choose|j: int|
                0 <= j < long(d, start, e + 4) && ps[k] == #[trigger] listed(d, start, e, j);
            lemma_trail_subs(d, start, sizes, noted, p, x, s, 0, j, ps, k, end);
        } else {
            lemma_trail(d, start, sizes, noted, ps, k, end);
        }
    }
}

proof fn lemma_trail_subs(
    d: Seq<u8>,
    start: int,
    sizes: Map<int, nat>,
    w: Walked,
    p: int,
    i: int,
    s: Seq<int>,
    x: int,
    j: int,
    ps: Seq<int>,
    k: int,
    end: int,
)
    requires
        on_trail(d, start, sizes, ps, k, end),
        sizes.contains_key(p),
        0 <= i < short(d, start, p),
        short(d, start, entry(p, i)) == 330,
        numbers(d, start, p, i) == Some(s),
        0 <= x <= j < s.len(),
        s[j] == ps[k],
        w.left >= list_cost(d, start, sizes, entry(p, i), s.len() as int) - list_cost(
            d,
            start,
            sizes,
            entry(p, i),
            x,
        ),
    ensures
        place(d, start).subs(w, s, x).max_end >= end,
    decreases ps.len() - k, 1int, j - x,
{
    let pl = place(d, start);
    let e = entry(p, i);
    lemma_sub(d, start, sizes, p, i, s, x);
    lemma_walk_grows(pl, w, s[x]);
    lemma_walk_cost(d, start, sizes, w, s[x]);
    let r = pl.walk(w, s[x]);
    lemma_subs_grow(pl, r, s, x + 1);
    if x < j {
        lemma_trail_subs(d, start, sizes, r, p, i, s, x + 1, j, ps, k, end);
    } else {
        lemma_list_cost(d, start, sizes, e, x + 1, s.len() as int);
        assert(directory_starts(d, start, ps[k]));
        lemma_trail(d, start, sizes, w, ps, k, end);
    }
}

/// The data of all directories is carved, also of sub-directories and of
/// Exif directories: where the first directory and all that it leads to are
/// at most 64, all data that any of them refers to is in the file.
pub proof fn lemma_all_directories_are_carved(
    d: Seq<u8>,
    start: int,
    sizes: Map<int, nat>,
    ps: Seq<int>,
    end: int,
)
    requires
        image_at(d, start),
        present(d, start, 0, 12),
        sized(d, start, sizes),
        trail(d, start, ps),
        ps[0] == long(d, start, 4),
        ps[0] >= 8,
        sizes.contains_key(ps[0]),
        sizes[ps[0]] <= 64,
        refers(d, start, ps.last(), end),
        14 < end <= bound(d, start),
    ensures
        carved_to(d, start, end),
{
    let w = Walked { max_end: 8, left: 64 };
    lemma_reads(d, start, 4);
    lemma_trail(d, start, sizes, w, ps, 0, end);
    lemma_walk_is_grounded(d, start, w, ps[0]);
    lemma_start(d, start);
}

} // verus!
