//! Reading and writing mapfiles.

use file_rescue::map::format::{fits, parse, serialize, MapParseError};
use file_rescue::map::SectorStatus::{Bad, NonScraped, NonTried, NonTrimmed, Rescued};
use file_rescue::map::{Phase, RescueMap};

/// Output of a real GNU ddrescue 1.27 run.
const DDRESCUE_SAMPLE: &str = "\
# Mapfile. Created by GNU ddrescue version 1.27
# Command line: ddrescue /dev/sdb disk.img disk.map
# Start time:   2024-01-01 12:00:00
# Current time: 2024-01-01 12:34:56
# Copying non-tried blocks... Pass 1 (forwards)
# current_pos  current_status  current_pass
0x00120000     ?               1
#      pos        size  status
0x00000000  0x00110000  +
0x00110000  0x00010000  *
0x00120000  0x00008000  -
0x00128000  0x00008000  /
0x00130000  0x7FED0000  ?
";

fn message_of(text: &str) -> String {
    parse(text).unwrap_err().message()
}

#[test]
fn parses_real_ddrescue_output() {
    let m = parse(DDRESCUE_SAMPLE).unwrap();
    assert_eq!(m.size, 0x130000 + 0x7FED0000);
    assert_eq!(m.current_pos, 0x120000);
    assert_eq!(m.current_phase, Phase::Copying);
    assert_eq!(m.pass, 1);
    assert_eq!(m.bytes_with(Rescued), 0x110000);
    assert_eq!(m.bytes_with(NonTrimmed), 0x10000);
    assert_eq!(m.bytes_with(Bad), 0x8000);
    assert_eq!(m.bytes_with(NonScraped), 0x8000);
    assert_eq!(m.bytes_with(NonTried), 0x7FED0000);
}

#[test]
fn round_trip_preserves_map() {
    let m = parse(DDRESCUE_SAMPLE).unwrap();
    let text = serialize(&m, "test");
    let m2 = parse(&text).unwrap();
    assert_eq!(m.extents(), m2.extents());
    assert_eq!(m.size, m2.size);
    assert_eq!(m.current_pos, m2.current_pos);
    assert_eq!(m.current_phase, m2.current_phase);
    assert_eq!(m.pass, m2.pass);
}

#[test]
fn parses_v1_two_column_status_line() {
    let text = "0x0 ?\n0x0 0x100 ?\n";
    let m = parse(text).unwrap();
    assert_eq!(m.pass, 1);
    assert_eq!(m.size, 0x100);
}

#[test]
fn rejects_gaps() {
    let text = "0x0 ? 1\n0x0 0x100 +\n0x200 0x100 ?\n";
    assert!(matches!(
        parse(text),
        Err(MapParseError::NotContiguous { .. })
    ));
}

#[test]
fn rejects_unknown_status() {
    let text = "0x0 ? 1\n0x0 0x100 X\n";
    assert!(parse(text).is_err());
}

#[test]
fn serialized_text_is_exact() {
    let mut m = RescueMap::new_untried(0x3000);
    m.mark(0, 0x1000, Rescued);
    m.mark(0x1000, 0x200, Bad);
    m.current_pos = 0x1200;
    m.current_phase = Phase::Scraping;
    m.pass = 3;
    assert_eq!(
        serialize(&m, "rescue image a b"),
        "# Mapfile. Created by file-rescue version 0.1.0\n\
         # Command line: rescue image a b\n\
         # current_pos  current_status  current_pass\n\
         0x00001200     /               3\n\
         #      pos        size  status\n\
         0x00000000  0x00001000  +\n\
         0x00001000  0x00000200  -\n\
         0x00001200  0x00001E00  ?\n"
    );
    let text = serialize(&RescueMap::new_untried(0), "");
    assert!(!text.contains("Command line"));
    assert_eq!(parse(&text).unwrap().size, 0);
}

#[test]
fn round_trip_of_large_numbers_and_odd_command_lines() {
    let mut m = RescueMap::new_untried(u64::MAX);
    m.mark(0x1_2345_6789, 0xABCD_EF01_2345, Bad);
    m.current_pos = u64::MAX;
    m.pass = u32::MAX;
    for cmd in ["", "one line", "two\n# lines", "and\n  \n\t#blank", "# \t"] {
        let text = serialize(&m, cmd);
        assert!(fits(&text));
        let m2 = parse(&text).unwrap();
        assert_eq!(m.extents(), m2.extents());
        assert_eq!(m.current_pos, m2.current_pos);
        assert_eq!(m.pass, m2.pass);
    }
    // A further line that looks like data is taken for data.
    assert!(parse(&serialize(&m, "x\ny z")).is_err());
}

#[test]
fn adjacent_lines_with_one_status_are_coalesced() {
    let m = parse("0 + 1\n0 16 +\n16 16 +\n32 0 -\n32 0x10 -\n").unwrap();
    assert_eq!(m.size, 48);
    assert_eq!(m.extents().len(), 2);
    assert_eq!(m.current_phase, Phase::Finished);
}

#[test]
fn windows_line_ends_and_blanks_are_ignored() {
    let m = parse("\r\n  # c\r\n\t0x10 - 0x2 \r\n0x0 0X20\u{2003}+\r\n").unwrap();
    assert_eq!(m.current_pos, 16);
    assert_eq!(m.pass, 2);
    assert_eq!(m.bytes_with(Rescued), 32);
}

#[test]
fn pass_is_cut_to_32_bits() {
    let m = parse("0 ? 0x100000002\n").unwrap();
    assert_eq!(m.pass, 2);
}

#[test]
fn errors_and_their_messages() {
    assert!(matches!(parse(""), Err(MapParseError::Empty)));
    assert!(matches!(parse("# only\n\n"), Err(MapParseError::Empty)));
    assert_eq!(message_of(""), "mapfile has no status line");
    assert_eq!(
        message_of("0x0 ? 1\n0x0 0x100 +\n0x200 0x100 ?\n"),
        "extents are not contiguous at line 3"
    );
    assert_eq!(
        message_of("0x0\n"),
        "line 1: status line must be: current_pos current_status [current_pass]"
    );
    assert_eq!(
        message_of("# c\n0xZ ? 1\n"),
        "line 2: invalid number \"0xZ\""
    );
    assert_eq!(
        message_of("0 ?? 1\n"),
        "line 1: expected single status character, got \"??\""
    );
    assert_eq!(
        message_of("0 x 1\n"),
        "line 1: unknown current_status \"x\""
    );
    assert_eq!(
        message_of("0 ? 1\n0 1\n"),
        "line 2: extent line must be: pos size status"
    );
    assert_eq!(
        message_of("0 ? 1\n0 0x100 X\n"),
        "line 2: unknown extent status \"X\""
    );
    assert_eq!(
        message_of("0 ? a\"b\n"),
        "line 1: invalid number \"a\\\"b\""
    );
    assert_eq!(
        message_of("0 ? 99999999999999999999\n"),
        "line 1: invalid number \"99999999999999999999\""
    );
}

#[test]
fn extents_behind_the_largest_number_do_not_fit() {
    assert!(!fits("0 ? 1\n0 0xFFFFFFFFFFFFFFFF +\n0xFFFFFFFFFFFFFFFF 1 +\n"));
    assert!(fits("0 ? 1\n0 0xFFFFFFFFFFFFFFFF +\n"));
    assert!(fits("nonsense"));
}
