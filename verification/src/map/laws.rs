//! Laws of the rescue map.

use super::{
    is_run_list, lemma_run_prefix, lemma_status_in_run, marked, runs_end, status_in, tally, Extent,
    RescueMap, SectorStatus,
};
use vstd::prelude::*;

verus! {

/// Every byte has exactly one status: the tallies of all statuses add up
/// to the size of the map.
pub proof fn lemma_tallies_add_up(v: Seq<SectorStatus>)
    ensures
        tally(v, SectorStatus::NonTried) + tally(v, SectorStatus::NonTrimmed) + tally(
            v,
            SectorStatus::NonScraped,
        ) + tally(v, SectorStatus::Bad) + tally(v, SectorStatus::Rescued) == v.len(),
    decreases v.len(),
{
    if v.len() > 0 {
        lemma_tallies_add_up(v.drop_last());
    }
}

/// Of two marks the later one counts, where they overlap.
pub proof fn lemma_later_mark_wins(
    v: Seq<SectorStatus>,
    start: int,
    len: int,
    first: SectorStatus,
    second: SectorStatus,
)
    ensures
        marked(marked(v, start, len, first), start, len, second) == marked(v, start, len, second),
{
    assert(marked(marked(v, start, len, first), start, len, second) =~= marked(
        v,
        start,
        len,
        second,
    ));
}

/// Marks of ranges that do not overlap can be made in either order.
pub proof fn lemma_disjoint_marks_commute(
    v: Seq<SectorStatus>,
    a: int,
    a_len: int,
    a_status: SectorStatus,
    b: int,
    b_len: int,
    b_status: SectorStatus,
)
    requires
        a + a_len <= b || b + b_len <= a,
    ensures
        marked(marked(v, a, a_len, a_status), b, b_len, b_status) == marked(
            marked(v, b, b_len, b_status),
            a,
            a_len,
            a_status,
        ),
{
    assert(marked(marked(v, a, a_len, a_status), b, b_len, b_status) =~= marked(
        marked(v, b, b_len, b_status),
        a,
        a_len,
        a_status,
    ));
}

/// Two halves of a range marked alike are the range marked.
pub proof fn lemma_marks_join(
    v: Seq<SectorStatus>,
    start: int,
    len: int,
    more: int,
    st: SectorStatus,
)
    requires
        0 <= len,
        0 <= more,
    ensures
        marked(marked(v, start, len, st), start + len, more, st) == marked(
            v,
            start,
            len + more,
            st,
        ),
{
    assert(marked(marked(v, start, len, st), start + len, more, st) =~= marked(
        v,
        start,
        len + more,
        st,
    ));
}

proof fn lemma_runs_unique(s: Seq<Extent>, t: Seq<Extent>)
    requires
        is_run_list(s),
        is_run_list(t),
        runs_end(s) == runs_end(t),
        forall|i: int| 0 <= i < runs_end(s) ==> #[trigger] status_in(s, i) == status_in(t, i),
    ensures
        s == t,
    decreases s.len(),
{
    if s.len() == 0 || t.len() == 0 {
        assert(s =~= t);
    } else {
        let a = s.last();
        let b = t.last();
        let n = s.len() - 1;
        let m = t.len() - 1;
        lemma_run_prefix(s);
        lemma_run_prefix(t);
        assert(status_in(s, runs_end(s) - 1) == status_in(t, runs_end(s) - 1));
        if a.start < b.start {
            assert(t[m - 1].spec_end() == t[m].start);
            lemma_status_in_run(t, m - 1, b.start - 1);
            assert(status_in(s, b.start - 1) == status_in(t, b.start - 1));
        } else if b.start < a.start {
            assert(s[n - 1].spec_end() == s[n].start);
            lemma_status_in_run(s, n - 1, a.start - 1);
            assert(status_in(s, a.start - 1) == status_in(t, a.start - 1));
        }
        assert forall|i: int| 0 <= i < runs_end(s.drop_last()) implies #[trigger] status_in(
            s.drop_last(),
            i,
        ) == status_in(t.drop_last(), i) by {
            assert(status_in(s, i) == status_in(t, i));
        }
        lemma_runs_unique(s.drop_last(), t.drop_last());
        assert(s =~= s.drop_last().push(a));
        assert(t =~= t.drop_last().push(b));
    }
}

/// The extents of a map are determined by the status of its bytes: however
/// a map came about, equal contents have equal extents.
pub proof fn lemma_extents_are_canonical(a: RescueMap, b: RescueMap)
    requires
        a.wf(),
        b.wf(),
        a@ == b@,
    ensures
        a.runs() == b.runs(),
{
    assert(a@.len() == a.size && b@.len() == b.size);
    assert forall|i: int| 0 <= i < a.size implies #[trigger] status_in(a.runs(), i) == status_in(
        b.runs(),
        i,
    ) by {
        assert(a@[i] == status_in(a.runs(), i));
        assert(b@[i] == status_in(b.runs(), i));
    }
    lemma_runs_unique(a.runs(), b.runs());
}

/// A mark sets the bytes of its range, as far as they are in the map, and no
/// others.
pub proof fn lemma_mark_sets_its_range(
    v: Seq<SectorStatus>,
    start: int,
    len: int,
    st: SectorStatus,
    i: int,
)
    requires
        0 <= i < v.len(),
    ensures
        marked(v, start, len, st).len() == v.len(),
        start <= i < start + len ==> marked(v, start, len, st)[i] == st,
        i < start || start + len <= i ==> marked(v, start, len, st)[i] == v[i],
{
}

} // verus!
