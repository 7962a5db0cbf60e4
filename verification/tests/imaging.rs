//! End-to-end tests of the imaging engine against fault-injected
//! in-memory sources: clean copy, bad regions, healing sectors (retry),
//! and interrupt, save map, resume.

use file_rescue::image::passes::{copy_pass, scrape_pass, trim_pass};
use file_rescue::image::sink::{ImageSink, MemSink};
use file_rescue::image::source::{
    is_sector_read, BadRegion, FaultySource, MemSource, SectorSource, SourceError,
};
use file_rescue::image::sweep::{next_forward, next_reverse, next_skip};
use file_rescue::image::{ImagingEngine, ImagingError, ImagingOptions, Outcome, Summary};
use file_rescue::map::format::{parse, serialize};
use file_rescue::map::{Extent, Phase, RescueMap, SectorStatus};
use file_rescue::testutil::Xorshift;
use std::sync::atomic::{AtomicBool, Ordering};

const SS: u32 = 512;

fn make_data(len: usize) -> Vec<u8> {
    let mut data = vec![0u8; len];
    Xorshift(0xF00D).fill(&mut data);
    data
}

fn opts() -> ImagingOptions {
    ImagingOptions {
        cluster_size: 4096,
        skip_size: 4096,
        ..Default::default()
    }
}

fn run_engine<S: SectorSource>(
    src: S,
    map: &mut RescueMap,
    opts: ImagingOptions,
) -> (Summary, Vec<u8>) {
    let mut engine = ImagingEngine::new(src, MemSink::default(), opts);
    let stop = AtomicBool::new(false);
    let summary = engine.run(map, &stop, &mut |_: &RescueMap| {}).unwrap();
    let data = std::mem::take(&mut engine.sink.data);
    (summary, data)
}

#[test]
fn clean_source_copies_identically() {
    let data = make_data(256 * 1024);
    let src = MemSource::new(data.clone(), SS);
    let mut map = RescueMap::new_untried(data.len() as u64);
    let (summary, image) = run_engine(src, &mut map, opts());
    assert_eq!(summary.outcome, Outcome::Finished);
    assert_eq!(summary.rescued, data.len() as u64);
    assert_eq!(summary.bad_bytes, 0);
    assert_eq!(image, data);
    assert!(map.is_finished());
}

#[test]
fn unaligned_source_size_is_fully_copied() {
    let data = make_data(100_003); // not a sector multiple
    let src = MemSource::new(data.clone(), SS);
    let mut map = RescueMap::new_untried(data.len() as u64);
    let (summary, image) = run_engine(src, &mut map, opts());
    assert_eq!(summary.outcome, Outcome::Finished);
    assert_eq!(image, data);
}

#[test]
fn bad_region_is_narrowed_to_exact_sectors() {
    let data = make_data(256 * 1024);
    // 3 bad sectors in the middle of a cluster.
    let bad_start = 0x8000u64 + 512;
    let bad_end = bad_start + 3 * 512;
    let src = FaultySource::new(
        MemSource::new(data.clone(), SS),
        vec![BadRegion::forever(bad_start..bad_end)],
    );
    let mut map = RescueMap::new_untried(data.len() as u64);
    let (summary, image) = run_engine(src, &mut map, opts());
    assert_eq!(summary.outcome, Outcome::Finished);
    // Trim+scrape must locate exactly the injected sectors.
    assert_eq!(summary.bad_bytes, 3 * 512);
    assert_eq!(map.bytes_with(SectorStatus::Bad), 3 * 512);
    let bad = map.ranges(SectorStatus::Bad);
    assert_eq!(bad.len(), 1);
    assert_eq!(bad[0].start, bad_start);
    assert_eq!(bad[0].end(), bad_end);
    // Everything else must match the source bit-for-bit.
    for (i, (a, b)) in image.iter().zip(data.iter()).enumerate() {
        let in_bad = (i as u64) >= bad_start && (i as u64) < bad_end;
        if !in_bad {
            assert_eq!(a, b, "mismatch at {i}");
        }
    }
    assert!(map.is_finished());
}

#[test]
fn reverse_direction_rescues_the_same() {
    let data = make_data(128 * 1024);
    let src = FaultySource::new(
        MemSource::new(data.clone(), SS),
        vec![BadRegion::forever(0x5000..0x5400)],
    );
    let mut map = RescueMap::new_untried(data.len() as u64);
    let mut o = opts();
    o.reverse = true;
    let (summary, _) = run_engine(src, &mut map, o);
    assert_eq!(summary.outcome, Outcome::Finished);
    assert_eq!(map.bytes_with(SectorStatus::Bad), 0x400);
    assert!(map.is_finished());
}

#[test]
fn healing_sectors_are_rescued_by_retry_pass() {
    let data = make_data(128 * 1024);
    // This region fails plenty of times (copy, trim, scrape attempts eat
    // some), then heals; retry passes must eventually rescue it.
    let src = FaultySource::new(
        MemSource::new(data.clone(), SS),
        vec![BadRegion::heals_after(0x4000..0x4200, 8)],
    );
    let mut map = RescueMap::new_untried(data.len() as u64);
    let mut o = opts();
    o.retry_passes = 10;
    let (summary, image) = run_engine(src, &mut map, o);
    assert_eq!(summary.outcome, Outcome::Finished);
    assert_eq!(summary.bad_bytes, 0, "healed sectors should be rescued");
    assert_eq!(image, data);
}

#[test]
fn without_retry_passes_healing_sectors_stay_bad() {
    let data = make_data(128 * 1024);
    let src = FaultySource::new(
        MemSource::new(data.clone(), SS),
        vec![BadRegion::heals_after(0x4000..0x4200, 1000)],
    );
    let mut map = RescueMap::new_untried(data.len() as u64);
    let (summary, _) = run_engine(src, &mut map, opts());
    assert_eq!(summary.outcome, Outcome::Finished);
    assert_eq!(summary.bad_bytes, 0x200);
}

#[test]
fn interrupt_then_resume_matches_uninterrupted_run() {
    let data = make_data(512 * 1024);
    let bad = vec![
        BadRegion::forever(0x10000..0x10600),
        BadRegion::forever(0x40200..0x40400),
    ];

    // Reference: uninterrupted run.
    let src = FaultySource::new(MemSource::new(data.clone(), SS), bad.clone());
    let mut ref_map = RescueMap::new_untried(data.len() as u64);
    let (ref_summary, ref_image) = run_engine(src, &mut ref_map, opts());
    assert_eq!(ref_summary.outcome, Outcome::Finished);

    // Interrupted run: stop after 20 progress callbacks, write the map out,
    // read it back, and finish with a fresh engine.
    let src = FaultySource::new(MemSource::new(data.clone(), SS), bad.clone());
    let mut map = RescueMap::new_untried(data.len() as u64);
    let mut engine = ImagingEngine::new(src, MemSink::default(), opts());
    let stop = AtomicBool::new(false);
    let mut calls = 0;
    let summary = engine
        .run(&mut map, &stop, &mut |_: &RescueMap| {
            calls += 1;
            if calls >= 20 {
                stop.store(true, Ordering::Relaxed);
            }
        })
        .unwrap();
    assert_eq!(summary.outcome, Outcome::Interrupted);
    assert!(!map.is_finished(), "test must interrupt mid-run");
    let partial_image = engine.sink.data.clone();

    let saved = serialize(&map, "test");
    let mut resumed_map = parse(&saved).unwrap();
    assert_eq!(resumed_map.extents(), map.extents());

    // Resume: new engine, new source (heal counters reset like a real
    // re-run), sink pre-filled with the partial image.
    let src = FaultySource::new(MemSource::new(data.clone(), SS), bad);
    let sink = MemSink {
        data: partial_image,
    };
    let mut engine = ImagingEngine::new(src, sink, opts());
    let stop = AtomicBool::new(false);
    let summary = engine
        .run(&mut resumed_map, &stop, &mut |_: &RescueMap| {})
        .unwrap();
    assert_eq!(summary.outcome, Outcome::Finished);

    assert_eq!(resumed_map.extents(), ref_map.extents());
    assert_eq!(engine.sink.data, ref_image);
}

#[test]
fn sink_holes_stay_zero_for_bad_sectors() {
    let data = make_data(64 * 1024);
    let src = FaultySource::new(
        MemSource::new(data, SS),
        vec![BadRegion::forever(0x2000..0x2200)],
    );
    let mut map = RescueMap::new_untried(64 * 1024);
    let (_, image) = run_engine(src, &mut map, opts());
    assert!(image[0x2000..0x2200].iter().all(|&b| b == 0));
}

#[test]
fn direction_and_cluster_size_do_not_change_the_result() {
    let data = make_data(200 * 1024);
    let bad = vec![
        BadRegion::forever(0x3100..0x3180),
        BadRegion::forever(0x20000..0x22001),
        BadRegion::forever(0x31FFF..0x32000),
    ];
    let mut results = Vec::new();
    for (reverse, cluster_size) in [(false, 4096), (true, 4096), (false, 65536), (true, 512)] {
        let src = FaultySource::new(MemSource::new(data.clone(), SS), bad.clone());
        let mut map = RescueMap::new_untried(data.len() as u64);
        let o = ImagingOptions {
            reverse,
            cluster_size,
            ..opts()
        };
        let (summary, image) = run_engine(src, &mut map, o);
        assert_eq!(summary.outcome, Outcome::Finished);
        results.push((map.extents().to_vec(), image));
    }
    for r in &results[1..] {
        assert_eq!(r.0, results[0].0);
        assert_eq!(r.1, results[0].1);
    }
    let total: u64 = results[0]
        .0
        .iter()
        .filter(|e| e.status == SectorStatus::Bad)
        .map(|e| e.len)
        .sum();
    assert_eq!(total, 512 + 0x2200 + 512);
}

#[test]
fn reverse_copies_sources_of_odd_size() {
    let data = make_data(100_003);
    let src = MemSource::new(data.clone(), SS);
    let mut map = RescueMap::new_untried(data.len() as u64);
    let o = ImagingOptions {
        reverse: true,
        ..opts()
    };
    let (summary, image) = run_engine(src, &mut map, o);
    assert_eq!(summary.outcome, Outcome::Finished);
    assert_eq!(image, data);
}

#[test]
fn rescued_bytes_are_not_read_again() {
    let data = make_data(8192);
    let src = MemSource::new(vec![0xEE; 8192], SS);
    let mut map = RescueMap::new_untried(8192);
    map.mark(0, 4096, SectorStatus::Rescued);
    let sink = MemSink {
        data: data[..4096].to_vec(),
    };
    let mut engine = ImagingEngine::new(src, sink, opts());
    let stop = AtomicBool::new(false);
    let s = engine
        .run(&mut map, &stop, &mut |_: &RescueMap| {})
        .unwrap();
    assert_eq!(s.rescued, 8192);
    assert_eq!(engine.sink.data[..4096], data[..4096]);
    assert!(engine.sink.data[4096..].iter().all(|&b| b == 0xEE));
}

#[test]
fn retry_passes_are_counted() {
    let data = make_data(16 * 1024);
    let src = FaultySource::new(
        MemSource::new(data, SS),
        vec![BadRegion::forever(0x1000..0x1200)],
    );
    let mut map = RescueMap::new_untried(16 * 1024);
    let o = ImagingOptions {
        retry_passes: 3,
        ..opts()
    };
    let (summary, _) = run_engine(src, &mut map, o);
    assert_eq!(map.pass, 4);
    assert_eq!(map.current_phase, Phase::Finished);
    assert_eq!(summary.bad_areas, 1);
    // One failed cluster, one failed sector, one failure per retry.
    assert_eq!(summary.read_errors, 2 + 3);
}

#[test]
fn stop_before_the_start_changes_nothing() {
    let mut map = RescueMap::new_untried(4096);
    let mut engine = ImagingEngine::new(
        MemSource::new(make_data(4096), SS),
        MemSink::default(),
        opts(),
    );
    let stop = AtomicBool::new(true);
    let s = engine
        .run(&mut map, &stop, &mut |_: &RescueMap| {})
        .unwrap();
    assert_eq!(s.outcome, Outcome::Interrupted);
    assert_eq!(s.rescued, 0);
    assert_eq!(map.bytes_with(SectorStatus::NonTried), 4096);
    assert_eq!(engine.sink.data, vec![0u8; 4096]);
}

struct FullSink {
    data: Vec<u8>,
    room: usize,
}

impl ImageSink for FullSink {
    fn write_at(&mut self, offset: u64, data: &[u8]) -> std::io::Result<()> {
        let end = offset as usize + data.len();
        if end > self.room {
            return Err(std::io::Error::new(std::io::ErrorKind::Other, "full"));
        }
        self.data[offset as usize..end].copy_from_slice(data);
        Ok(())
    }

    fn set_len(&mut self, len: u64) -> std::io::Result<()> {
        self.data.resize(len as usize, 0);
        Ok(())
    }

    fn flush(&mut self) -> std::io::Result<()> {
        Ok(())
    }
}

#[test]
fn a_failed_write_ends_imaging_with_a_usable_map() {
    let data = make_data(64 * 1024);
    let mut map = RescueMap::new_untried(data.len() as u64);
    let sink = FullSink {
        data: Vec::new(),
        room: 0x5000,
    };
    let mut engine = ImagingEngine::new(MemSource::new(data.clone(), SS), sink, opts());
    let stop = AtomicBool::new(false);
    let r = engine.run(&mut map, &stop, &mut |_: &RescueMap| {});
    match r {
        Err(ImagingError::Sink(e)) => assert_eq!(e.to_string(), "full"),
        Ok(_) => panic!("the write went through"),
    }
    assert_eq!(map.bytes_with(SectorStatus::Rescued), 0x5000);
    assert_eq!(engine.sink.data[..0x5000], data[..0x5000]);
}

#[test]
fn default_options() {
    let o = ImagingOptions::default();
    assert_eq!(o.cluster_size, 65536);
    assert!(!o.reverse);
    assert_eq!(o.retry_passes, 0);
    assert_eq!(o.skip_size, 65536);
    assert_eq!(o.max_skip_size, 64 * 1024 * 1024);
}

#[test]
fn faults_heal_after_their_failures() {
    let mut src = FaultySource::new(
        MemSource::new(make_data(2048), SS),
        vec![BadRegion::heals_after(512..1024, 2)],
    );
    let mut buf = vec![0u8; 512];
    assert!(src.read_at(0, &mut buf).is_ok());
    assert!(matches!(
        src.read_at(512, &mut buf),
        Err(SourceError::Simulated)
    ));
    assert!(matches!(
        src.read_at(1000, &mut buf),
        Err(SourceError::Simulated)
    ));
    assert!(src.read_at(512, &mut buf).is_ok());
    assert_eq!(buf, make_data(2048)[512..1024].to_vec());
    assert!(matches!(
        src.read_at(1600, &mut buf),
        Err(SourceError::PastEnd)
    ));
    assert_eq!(src.size(), 2048);
    assert_eq!(src.sector_size(), 512);
}

#[test]
fn sweeps_read_cluster_after_cluster() {
    let mut m = RescueMap::new_untried(10_000);
    m.mark(0, 1024, SectorStatus::Rescued);
    assert_eq!(next_forward(&m, 0, 4096), Some((1024, 4096)));
    assert_eq!(next_forward(&m, 8192, 4096), Some((8192, 1808)));
    assert_eq!(next_forward(&m, 10_000, 4096), None);
    // From the end, the read starts on a sector boundary.
    assert_eq!(next_reverse(&m, 10_000, 4096, 512), Some((5632, 4368)));
    assert_eq!(next_reverse(&m, 2048, 4096, 512), Some((1024, 1024)));
    assert_eq!(next_reverse(&m, 1024, 4096, 512), None);
    assert_eq!(next_skip(4096, 10_000), 8192);
    assert_eq!(next_skip(8192, 10_000), 10_000);
    assert_eq!(next_skip(u64::MAX, u64::MAX), u64::MAX);
}

#[test]
fn direct_reads_lie_on_sectors() {
    assert!(is_sector_read(1024, 512, 512));
    assert!(!is_sector_read(1000, 512, 512));
    assert!(!is_sector_read(1024, 100, 512));
    assert!(is_sector_read(0, 0, 0));
    assert!(!is_sector_read(1, 0, 0));
}

/// Writes down every read of a source, and whether it succeeded.
struct Recorder<S: SectorSource> {
    inner: S,
    reads: Vec<(u64, usize, bool)>,
}

impl<S: SectorSource> SectorSource for Recorder<S> {
    fn size(&self) -> u64 {
        self.inner.size()
    }

    fn sector_size(&self) -> u32 {
        self.inner.sector_size()
    }

    fn read_at(&mut self, offset: u64, buf: &mut [u8]) -> Result<(), SourceError> {
        let r = self.inner.read_at(offset, buf);
        self.reads.push((offset, buf.len(), r.is_ok()));
        r
    }
}

fn recorded(
    bad: Vec<BadRegion>,
    opts: ImagingOptions,
) -> (Vec<(u64, usize, bool)>, RescueMap, u64) {
    let src = Recorder {
        inner: FaultySource::new(MemSource::new(make_data(8192), 512), bad),
        reads: Vec::new(),
    };
    let mut map = RescueMap::new_untried(8192);
    let mut engine = ImagingEngine::new(src, MemSink::default(), opts);
    let stop = AtomicBool::new(false);
    let summary = engine
        .run(&mut map, &stop, &mut |_: &RescueMap| {})
        .unwrap();
    (engine.src.reads, map, summary.read_errors)
}

#[test]
fn the_order_of_reads_is_fixed() {
    let opts = ImagingOptions {
        cluster_size: 2048,
        skip_size: 2048,
        max_skip_size: 4096,
        retry_passes: 2,
        reverse: false,
    };
    let (reads, map, errors) = recorded(vec![BadRegion::forever(3072..3584)], opts);
    assert_eq!(
        reads,
        vec![
            // copy, skipping behind the error, and what was skipped
            (0, 2048, true),
            (2048, 2048, false),
            (6144, 2048, true),
            (4096, 2048, true),
            // trim from both ends
            (2048, 512, true),
            (2560, 512, true),
            (3072, 512, false),
            (3584, 512, true),
            // retry, forwards and backwards
            (3072, 512, false),
            (3072, 512, false),
        ]
    );
    assert_eq!(errors, 4);
    assert_eq!(map.current_pos, 3072);
    assert_eq!(map.pass, 3);
    assert_eq!(map.current_phase, Phase::Finished);
}

#[test]
fn reverse_reads_and_scraping_in_order() {
    let opts = ImagingOptions {
        cluster_size: 4096,
        skip_size: 0,
        max_skip_size: 0,
        retry_passes: 2,
        reverse: true,
    };
    let bad = vec![BadRegion::forever(512..600), BadRegion::forever(2600..3000)];
    let (reads, map, errors) = recorded(bad, opts);
    assert_eq!(
        reads,
        vec![
            (4096, 4096, true),
            (0, 4096, false),
            // trim: the second and the sixth sector fail
            (0, 512, true),
            (512, 512, false),
            (3584, 512, true),
            (3072, 512, true),
            (2560, 512, false),
            // scrape what lies between
            (1024, 512, true),
            (1536, 512, true),
            (2048, 512, true),
            // retry, forwards and backwards
            (512, 512, false),
            (2560, 512, false),
            (2560, 512, false),
            (512, 512, false),
        ]
    );
    assert_eq!(errors, 7);
    assert_eq!(map.bytes_with(SectorStatus::Bad), 1024);
}

#[test]
fn a_finished_map_needs_no_reads() {
    let mut map = RescueMap::new_untried(8192);
    map.mark(0, 8192, SectorStatus::Rescued);
    map.mark(1024, 512, SectorStatus::Bad);
    let src = Recorder {
        inner: MemSource::new(make_data(8192), 512),
        reads: Vec::new(),
    };
    let mut engine = ImagingEngine::new(src, MemSink::default(), ImagingOptions::default());
    let stop = AtomicBool::new(false);
    let summary = engine
        .run(&mut map, &stop, &mut |_: &RescueMap| {})
        .unwrap();
    assert_eq!(summary.outcome, Outcome::Finished);
    assert!(engine.src.reads.is_empty());
    assert_eq!(summary.bad_bytes, 512);
    let failed = ImagingError::Sink(std::io::Error::new(std::io::ErrorKind::Other, "full"));
    assert_eq!(failed.message(), "writing image: ");
}

#[test]
fn a_region_heals_in_the_retry_passes() {
    let data = vec![7u8; 0x20000];
    let src = FaultySource::new(
        MemSource::new(data.clone(), 512),
        vec![BadRegion::heals_after(0x4000..0x4200, 8)],
    );
    let opts = ImagingOptions {
        cluster_size: 4096,
        skip_size: 4096,
        retry_passes: 10,
        ..Default::default()
    };
    let mut map = RescueMap::new_untried(0x20000);
    let mut engine = ImagingEngine::new(src, MemSink::default(), opts);
    let stop = AtomicBool::new(false);
    let s = engine
        .run(&mut map, &stop, &mut |_: &RescueMap| {})
        .unwrap();
    assert_eq!(s.outcome, Outcome::Finished);
    assert_eq!((s.bad_bytes, s.read_errors), (0, 8));
    assert_eq!(engine.sink.data, data);
    assert_eq!(map.pass, 8);
}

#[test]
fn without_a_live_fault_the_wrapped_source_decides() {
    let mut src = FaultySource::new(
        MemSource::new(make_data(1024), 512),
        vec![BadRegion::heals_after(0..512, 0)],
    );
    let mut buf = [9u8; 512];
    assert!(matches!(
        src.read_at(1024, &mut buf),
        Err(SourceError::PastEnd)
    ));
    assert_eq!(buf, [9u8; 512]);
    assert!(src.read_at(0, &mut buf).is_ok());
    assert_eq!(buf[..], make_data(1024)[..512]);
}

fn parts(map: &RescueMap) -> Vec<(u64, u64, SectorStatus)> {
    map.extents()
        .iter()
        .map(|e: &Extent| (e.start, e.len, e.status))
        .collect()
}

#[test]
fn a_backward_copy_pass_fills_an_empty_sink() {
    let opts = ImagingOptions {
        cluster_size: 2,
        reverse: true,
        skip_size: 2,
        ..Default::default()
    };
    let src = MemSource::new(vec![1, 2, 3, 4, 5], 2);
    let mut engine = ImagingEngine::new(src, MemSink::default(), opts);
    let mut map = RescueMap::new_untried(5);
    let stop = AtomicBool::new(false);
    let interrupted =
        copy_pass(&mut engine, &mut map, &stop, &mut |_: &RescueMap| {}).unwrap();
    assert!(!interrupted);
    assert_eq!(engine.sink.data, vec![1, 2, 3, 4, 5]);
    assert_eq!(parts(&map), vec![(0, 5, SectorStatus::Rescued)]);
}

#[test]
fn skips_grow_with_errors_in_a_row() {
    let opts = ImagingOptions {
        cluster_size: 1,
        reverse: false,
        retry_passes: 0,
        skip_size: 1,
        max_skip_size: 4,
    };
    let src = FaultySource::new(
        MemSource::new(vec![9; 8], 1),
        vec![BadRegion::forever(0..3)],
    );
    let mut engine = ImagingEngine::new(src, MemSink::default(), opts);
    let mut map = RescueMap::new_untried(8);
    let stop = AtomicBool::new(false);
    let mut places = Vec::new();
    let interrupted = copy_pass(&mut engine, &mut map, &stop, &mut |m: &RescueMap| {
        places.push(m.current_pos)
    })
    .unwrap();
    assert!(!interrupted);
    assert_eq!(places, vec![1, 3, 6, 7, 8, 2, 4, 5]);
    assert_eq!(
        parts(&map),
        vec![(0, 3, SectorStatus::NonTrimmed), (3, 5, SectorStatus::Rescued)]
    );
    assert_eq!(engine.sink.data, vec![0, 0, 0, 9, 9, 9, 9, 9]);
}

#[test]
fn trimming_and_scraping_an_empty_sink() {
    let src = FaultySource::new(
        MemSource::new(vec![9; 8], 1),
        vec![BadRegion::forever(2..3), BadRegion::forever(5..6)],
    );
    let mut engine = ImagingEngine::new(src, MemSink::default(), ImagingOptions::default());
    let mut map = RescueMap::new_untried(8);
    map.mark(0, 8, SectorStatus::NonTrimmed);
    let stop = AtomicBool::new(false);
    assert!(!trim_pass(&mut engine, &mut map, &stop, &mut |_: &RescueMap| {}).unwrap());
    assert_eq!(
        parts(&map),
        vec![
            (0, 2, SectorStatus::Rescued),
            (2, 1, SectorStatus::Bad),
            (3, 2, SectorStatus::NonScraped),
            (5, 1, SectorStatus::Bad),
            (6, 2, SectorStatus::Rescued),
        ]
    );
    assert!(!scrape_pass(&mut engine, &mut map, &stop, &mut |_: &RescueMap| {}).unwrap());
    assert_eq!(engine.sink.data, vec![9, 9, 0, 9, 9, 0, 9, 9]);
}

/// Counts flushes, and fails the `fail`-th with an error of its own.
struct Flushing {
    image: MemSink,
    flushes: u32,
    fail: u32,
}

impl ImageSink for Flushing {
    fn write_at(&mut self, offset: u64, data: &[u8]) -> std::io::Result<()> {
        self.image.write_at(offset, data)
    }

    fn set_len(&mut self, len: u64) -> std::io::Result<()> {
        self.image.set_len(len)
    }

    fn flush(&mut self) -> std::io::Result<()> {
        self.flushes += 1;
        if self.flushes == self.fail {
            return Err(std::io::Error::new(
                std::io::ErrorKind::Other,
                format!("flush {}", self.fail),
            ));
        }
        Ok(())
    }
}

#[test]
fn the_image_is_flushed_after_every_pass() {
    for fail in [0, 1, 2] {
        let sink = Flushing {
            image: MemSink::default(),
            flushes: 0,
            fail,
        };
        let src = MemSource::new(make_data(4096), 512);
        let mut engine = ImagingEngine::new(src, sink, ImagingOptions::default());
        let mut map = RescueMap::new_untried(4096);
        let stop = AtomicBool::new(false);
        match engine.run(&mut map, &stop, &mut |_: &RescueMap| {}) {
            Ok(_) => {
                // the copy pass, and the end
                assert_eq!(fail, 0);
                assert_eq!(engine.sink.flushes, 2);
            }
            Err(ImagingError::Sink(e)) => assert_eq!(e.to_string(), format!("flush {fail}")),
        }
    }
}
