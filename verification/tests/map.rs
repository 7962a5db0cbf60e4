//! The rescue map: marking, ranges, counts.

use file_rescue::map::SectorStatus::{Bad, NonScraped, NonTried, NonTrimmed, Rescued};
use file_rescue::map::{Extent, Phase, RescueMap, SectorStatus};

fn assert_invariants(m: &RescueMap) {
    assert!(!m.extents().is_empty() || m.size == 0);
    let mut pos = 0u64;
    let mut prev: Option<&Extent> = None;
    for e in m.extents() {
        assert!(e.len > 0, "empty extent");
        assert_eq!(e.start, pos, "gap or overlap");
        if let Some(p) = prev {
            assert_ne!(p.status, e.status, "not coalesced");
        }
        pos = e.end();
        prev = Some(e);
    }
    assert_eq!(pos, m.size, "does not cover size");
}

#[test]
fn new_map_is_untried() {
    let m = RescueMap::new_untried(1000);
    assert_eq!(m.extents().len(), 1);
    assert_eq!(m.bytes_with(NonTried), 1000);
    assert_invariants(&m);
}

#[test]
fn mark_splits_and_coalesces() {
    let mut m = RescueMap::new_untried(1000);
    m.mark(100, 200, Rescued);
    assert_invariants(&m);
    assert_eq!(m.extents().len(), 3);
    m.mark(300, 100, Rescued); // adjacent: coalesce
    assert_invariants(&m);
    assert_eq!(m.bytes_with(Rescued), 300);
    assert_eq!(m.extents().len(), 3);
    m.mark(0, 100, Rescued); // prefix: coalesce left
    assert_invariants(&m);
    assert_eq!(m.extents().len(), 2);
    m.mark(0, 1000, Rescued);
    assert_invariants(&m);
    assert_eq!(m.extents().len(), 1);
    assert!(m.is_finished());
}

#[test]
fn mark_overwrites_middle() {
    let mut m = RescueMap::new_untried(1000);
    m.mark(0, 1000, Rescued);
    m.mark(400, 100, Bad);
    assert_invariants(&m);
    assert_eq!(m.bytes_with(Bad), 100);
    assert_eq!(m.bytes_with(Rescued), 900);
    assert_eq!(m.status_at(399), Some(Rescued));
    assert_eq!(m.status_at(400), Some(Bad));
    assert_eq!(m.status_at(499), Some(Bad));
    assert_eq!(m.status_at(500), Some(Rescued));
    assert_eq!(m.status_at(1000), None);
}

#[test]
fn mark_clamps_to_size() {
    let mut m = RescueMap::new_untried(1000);
    m.mark(900, 500, Bad);
    assert_invariants(&m);
    assert_eq!(m.bytes_with(Bad), 100);
    m.mark(2000, 10, Bad); // fully out of range: no-op
    assert_invariants(&m);
    assert_eq!(m.bytes_with(Bad), 100);
}

#[test]
fn overlaps_non_rescued_works() {
    let mut m = RescueMap::new_untried(1000);
    m.mark(0, 1000, Rescued);
    m.mark(500, 10, Bad);
    assert!(!m.overlaps_non_rescued(0, 500));
    assert!(m.overlaps_non_rescued(490, 20));
    assert!(m.overlaps_non_rescued(505, 1));
    assert!(!m.overlaps_non_rescued(510, 490));
}

#[test]
fn random_marks_keep_invariants() {
    // Deterministic pseudo-random sequence (xorshift).
    let mut m = RescueMap::new_untried(1 << 20);
    let mut x: u64 = 0x9E3779B97F4A7C15;
    for _ in 0..2000 {
        x ^= x << 13;
        x ^= x >> 7;
        x ^= x << 17;
        let start = x % (1 << 20);
        let len = (x >> 24) % 4096 + 1;
        let status = SectorStatus::ALL[(x >> 40) as usize % 5];
        m.mark(start, len, status);
        assert_invariants(&m);
    }
    let total: u64 = SectorStatus::ALL.iter().map(|&s| m.bytes_with(s)).sum();
    assert_eq!(total, 1 << 20);
}

#[test]
fn next_range_finds_following_extent() {
    let mut m = RescueMap::new_untried(1000);
    m.mark(0, 500, Rescued);
    let e = m.next_range(NonTried, 0).unwrap();
    assert_eq!(e.start, 500);
    assert!(m.next_range(NonTried, 999).is_some());
    assert!(m.next_range(NonTried, 1000).is_none());
}

#[test]
fn characters_and_labels() {
    let expected = [
        (NonTried, '?', "non-tried"),
        (NonTrimmed, '*', "non-trimmed"),
        (NonScraped, '/', "non-scraped"),
        (Bad, '-', "bad-sector"),
        (Rescued, '+', "rescued"),
    ];
    for (s, c, label) in expected {
        assert_eq!(s.as_char(), c);
        assert_eq!(SectorStatus::from_char(c), Some(s));
        assert_eq!(s.label(), label);
    }
    assert_eq!(SectorStatus::from_char('x'), None);
    let phases = [
        (Phase::Copying, '?', "copying"),
        (Phase::Trimming, '*', "trimming"),
        (Phase::Scraping, '/', "scraping"),
        (Phase::Retrying, '-', "retrying"),
        (Phase::Finished, '+', "finished"),
    ];
    for (p, c, label) in phases {
        assert_eq!(p.as_char(), c);
        assert_eq!(Phase::from_char(c), Some(p));
        assert_eq!(p.label(), label);
    }
    assert_eq!(Phase::from_char('F'), None);
}

#[test]
fn ranges_and_counts_by_status() {
    let mut m = RescueMap::new_untried(1000);
    m.mark(100, 50, Bad);
    m.mark(300, 10, Bad);
    let bad = m.ranges(Bad);
    assert_eq!(bad.len(), 2);
    assert_eq!((bad[0].start, bad[0].len), (100, 50));
    assert_eq!((bad[1].start, bad[1].len), (300, 10));
    assert_eq!(m.count_with(Bad), 2);
    assert_eq!(m.count_with(NonTried), 3);
    assert_eq!(m.count_with(NonScraped), 0);
    assert!(!m.is_finished());
}

#[test]
fn empty_map_is_finished() {
    let m = RescueMap::new_untried(0);
    assert!(m.is_finished());
    assert_eq!(m.extents().len(), 0);
    assert_eq!(m.status_at(0), None);
    assert!(!m.overlaps_non_rescued(0, 10));
}

#[test]
fn marks_commute_and_later_ones_win() {
    let mut a = RescueMap::new_untried(400);
    a.mark(0, 100, Rescued);
    a.mark(200, 100, Bad);
    let mut b = RescueMap::new_untried(400);
    b.mark(200, 100, Bad);
    b.mark(0, 100, Rescued);
    assert_eq!(a.extents(), b.extents());
    a.mark(0, 100, NonTrimmed);
    a.mark(0, 100, NonScraped);
    b.mark(0, 100, NonScraped);
    assert_eq!(a.extents(), b.extents());
    // Two halves are the whole.
    let mut c = RescueMap::new_untried(400);
    c.mark(0, 30, Bad);
    c.mark(30, 70, Bad);
    let mut d = RescueMap::new_untried(400);
    d.mark(0, 100, Bad);
    assert_eq!(c.extents(), d.extents());
}

#[test]
fn marks_with_huge_lengths_do_not_overflow() {
    let mut m = RescueMap::new_untried(u64::MAX);
    m.mark(u64::MAX - 10, u64::MAX, Bad);
    assert_eq!(m.bytes_with(Bad), 10);
    assert!(m.overlaps_non_rescued(u64::MAX - 5, u64::MAX));
}
