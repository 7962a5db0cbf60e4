//! The command line and what is printed.

use file_rescue::carve::report::{json_report, text_report};
use file_rescue::carve::{carve_scan, CarveOptions, CarvedFile};
use file_rescue::cli::{
    bad_spec_fits, list_names, parse_bad_spec, parse_status, CarveArgs, ImageArgs,
};
use file_rescue::device::{check_clobber, check_output_safety, FileId};
use file_rescue::image::sink::MemSink;
use file_rescue::image::source::{BadRegion, FaultySource, MemSource};
use file_rescue::image::{ImagingEngine, ImagingOptions, Outcome, Summary};
use file_rescue::map::format::{parse, serialize};
use file_rescue::map::{RescueMap, SectorStatus};
use file_rescue::testutil::{build_disk, minimal_jpeg, minimal_mp4};
use file_rescue::ui;
use std::sync::atomic::AtomicBool;

fn make_disk() -> Vec<u8> {
    let jpeg = minimal_jpeg(30_000);
    let mp4 = minimal_mp4(200_000, false, false);
    build_disk(
        2 * 1024 * 1024,
        &[(0x1000, &jpeg[..]), (0x80000, &mp4[..])],
    )
}

fn image(disk: &[u8], bad: Vec<BadRegion>) -> (Vec<u8>, RescueMap, Summary) {
    let source = FaultySource::new(MemSource::new(disk.to_vec(), 512), bad);
    let mut engine = ImagingEngine::new(source, MemSink::default(), ImagingOptions::default());
    let mut map = RescueMap::new_untried(disk.len() as u64);
    let stop = AtomicBool::new(false);
    let summary = engine
        .run(&mut map, &stop, &mut |_: &RescueMap| {})
        .unwrap();
    (engine.sink.data, map, summary)
}

fn carve(input: &[u8], map: Option<&RescueMap>) -> Vec<CarvedFile> {
    let mut r: &[u8] = input;
    carve_scan(
        &mut r,
        map,
        &CarveOptions::default(),
        &mut |_: u64, _: usize| {},
    )
    .unwrap()
}

fn file(format: &'static str, damaged: bool) -> CarvedFile {
    CarvedFile {
        offset: 0,
        len: 1,
        format,
        name: "f.x".to_string(),
        damaged,
        truncated: false,
    }
}

#[test]
fn bad_spec_parses() {
    let v = parse_bad_spec("0x1000+0x200,4096+512@2").unwrap();
    assert_eq!(v.len(), 2);
    assert_eq!(v[0].range, 0x1000..0x1200);
    assert_eq!(v[0].remaining_failures, None);
    assert_eq!(v[1].range, 4096..4608);
    assert_eq!(v[1].remaining_failures, Some(2));
    assert!(parse_bad_spec("nonsense").is_err());
}

#[test]
fn bad_spec_errors() {
    assert_eq!(
        parse_bad_spec("nonsense").unwrap_err(),
        "expected OFF+LEN in \"nonsense\""
    );
    assert_eq!(
        parse_bad_spec("1+2,").unwrap_err(),
        "expected OFF+LEN in \"\""
    );
    assert_eq!(
        parse_bad_spec("+5").unwrap_err(),
        "\"\": cannot parse integer from empty string"
    );
    assert_eq!(
        parse_bad_spec("1+ 0xG ").unwrap_err(),
        "\"0xG\": invalid digit found in string"
    );
    assert_eq!(
        parse_bad_spec("1+2@99999999999999999999").unwrap_err(),
        "\"99999999999999999999\": number too large to fit in target type"
    );
    let v = parse_bad_spec(" 16 + 0X10 @ 4294967299").unwrap();
    assert_eq!(v[0].range, 16..32);
    assert_eq!(v[0].remaining_failures, Some(3));
    assert!(bad_spec_fits("1+2"));
    assert!(!bad_spec_fits("0xFFFFFFFFFFFFFFFF+1"));
}

#[test]
fn statuses_by_character_and_name() {
    for s in SectorStatus::ALL {
        assert_eq!(parse_status(&s.as_char().to_string()), Ok(s));
        assert_eq!(parse_status(s.label()), Ok(s));
        assert_eq!(parse_status(&s.label().replace('-', "")), Ok(s));
    }
    assert_eq!(parse_status("bad"), Ok(SectorStatus::Bad));
    assert_eq!(parse_status("non-tr-ied"), Ok(SectorStatus::NonTried));
    assert_eq!(
        parse_status("worse").unwrap_err(),
        "unknown status \"worse\" (use ?, *, /, -, + or the names non-tried, \
         non-trimmed, non-scraped, bad-sector, rescued)"
    );
    assert!(parse_status("").is_err());
    assert!(parse_status("x").is_err());
}

#[test]
fn options_from_arguments() {
    let mut args = ImageArgs {
        source: "a".to_string(),
        image: "b".to_string(),
        mapfile: "c".to_string(),
        direct: false,
        reverse: true,
        cluster_size: 1000,
        retry_passes: 2,
        sector_size: None,
        force: false,
        simulate_bad: None,
    };
    let o = args.options(4096);
    assert_eq!(o.cluster_size, 4096);
    assert!(o.reverse);
    assert_eq!(o.retry_passes, 2);
    assert_eq!(o.skip_size, 65536);
    args.cluster_size = 100_000;
    assert_eq!(args.options(4096).cluster_size, 100_000);
    let args = CarveArgs {
        input: "a".to_string(),
        outdir: "b".to_string(),
        map: None,
        formats: Some("mp4, jpeg".to_string()),
        align: 1,
    };
    let o = args.options();
    assert_eq!(o.align, 1);
    assert_eq!(
        o.formats,
        Some(vec!["mp4".to_string(), "jpeg".to_string()])
    );
    assert_eq!(list_names(""), vec![String::new()]);
}

#[test]
fn map_show_reads_ddrescue_mapfile() {
    let map = parse(
        "# Mapfile. Created by GNU ddrescue version 1.27\n\
         # current_pos  current_status  current_pass\n\
         0x00120000     ?               1\n\
         0x00000000  0x00110000  +\n\
         0x00110000  0x00010000  -\n",
    )
    .unwrap();
    let shown = ui::overview(&map);
    assert!(shown.contains("rescued"));
    assert!(shown.contains("bad-sector"));
    assert_eq!(
        shown,
        "size:      1179648 bytes\n\
         phase:     copying (pass 1)\n\
         position:  0x120000\n\
         non-tried                  0 bytes in      0 areas\n\
         non-trimmed                0 bytes in      0 areas\n\
         non-scraped                0 bytes in      0 areas\n\
         bad-sector             65536 bytes in      1 areas\n\
         rescued              1114112 bytes in      1 areas\n"
    );
    let bad = parse_status("bad-sector").unwrap();
    assert!(ui::region_lines(&map, Some(bad)).contains("0x0000110000"));
    assert_eq!(
        ui::region_lines(&map, Some(bad)),
        "0x0000110000 0x0000010000 - bad-sector\n"
    );
    assert_eq!(
        ui::region_lines(&map, None),
        "0x0000000000 0x0000110000 + rescued\n\
         0x0000110000 0x0000010000 - bad-sector\n"
    );
}

#[test]
fn imaging_lines() {
    let mut s = Summary {
        outcome: Outcome::Finished,
        rescued: 10,
        bad_bytes: 1024,
        bad_areas: 2,
        read_errors: 7,
    };
    assert_eq!(
        ui::summary_line(&s),
        "finished: rescued 10 bytes, 1024 bad bytes in 2 areas (7 read errors)\n"
    );
    s.outcome = Outcome::Interrupted;
    assert!(ui::summary_line(&s).starts_with("interrupted (resume with the same command): "));
    let mut map = RescueMap::new_untried(1000);
    map.mark(0, 100, SectorStatus::Rescued);
    map.mark(100, 50, SectorStatus::Bad);
    assert_eq!(ui::imaging_message(&map), "[copying] bad 50 B in 1 areas");
    assert_eq!(
        ui::resume_line(&map),
        "resuming: 100 of 1000 bytes already rescued\n"
    );
    assert_eq!(ui::size_mismatch("m", &map, "s", 1000), None);
    assert_eq!(
        ui::size_mismatch("m", &map, "s", 5),
        Some("mapfile m describes a 1000-byte source but s is 5 bytes".to_string())
    );
}

#[test]
fn carve_extracts_and_reports() {
    let disk = make_disk();
    let files = carve(&disk, None);
    assert!(ui::carved_lines(&files, "recovered").contains("extracted 2 files"));
    assert!(text_report(&files).contains("f0000001000.jpg"));
    assert!(json_report(&files).contains("f0000080000.mp4"));
    assert!(files.iter().any(|f| f.name.ends_with(".jpg")));
    assert!(files.iter().any(|f| f.name.ends_with(".mp4")));
}

#[test]
fn lines_after_a_scan() {
    let files = vec![
        file("png", false),
        file("jpeg", true),
        file("png", true),
        file("mp4", false),
    ];
    assert_eq!(
        ui::carved_lines(&files, "recovered"),
        "extracted 4 files to recovered (2 flagged damaged)\n  jpeg: 1\n  mp4: 1\n  png: 2\n"
    );
    assert_eq!(
        ui::carved_lines(&[], "out"),
        "extracted 0 files to out (0 flagged damaged)\n"
    );
}

#[test]
fn image_copies_file_and_writes_map() {
    let disk = make_disk();
    let (image, map, summary) = image(&disk, Vec::new());
    assert!(ui::summary_line(&summary).contains("finished"));
    assert_eq!(disk, image, "image must match source");
    assert!(serialize(&map, "rescue image").contains("file-rescue"));
}

#[test]
fn image_refuses_source_as_output() {
    let id = FileId {
        dev: 1,
        ino: 2,
        rdev: 0,
        is_block: false,
        under: Vec::new(),
    };
    let refused = check_output_safety("disk.bin", Some(id.clone()), "disk.bin", Some(id));
    assert!(refused.unwrap_err().message().contains("same file"));
}

#[test]
fn image_refuses_clobber_without_map() {
    let refused = check_clobber("out.img", true, false, false);
    assert!(refused.unwrap_err().message().contains("--force"));
}

#[test]
fn simulated_faults_flow_through_to_carve() {
    let disk = make_disk();
    // Bad range inside the planted MP4 (at 0x80000).
    let bad = parse_bad_spec("0x88000+0x400").unwrap();
    let (image, map, summary) = image(&disk, bad);
    assert!(ui::summary_line(&summary).contains("1024 bad bytes"));
    let map = parse(&serialize(&map, "rescue image")).unwrap();
    let files = carve(&image, Some(&map));
    assert!(ui::carved_lines(&files, "recovered").contains("1 flagged damaged"));
}
