//! Rules for opening sources safely.

use file_rescue::device::{
    check_clobber, check_output_safety, choose_sector_size, output_on_source_device,
    parse_device, parse_sector_size, same_file, AlignedBuf, DeviceError, FileId,
};

fn file(dev: u64, ino: u64) -> FileId {
    FileId {
        dev,
        ino,
        rdev: 0,
        is_block: false,
        under: Vec::new(),
    }
}

fn node(dev: u64, ino: u64, rdev: u64) -> FileId {
    FileId {
        dev,
        ino,
        rdev,
        is_block: true,
        under: Vec::new(),
    }
}

#[test]
fn aligned_buf_is_aligned() {
    let mut b = AlignedBuf::new(8192, 4096);
    assert_eq!(b.as_mut_slice().as_ptr() as usize % 4096, 0);
    assert_eq!(b.as_slice().len(), 8192);
}

#[test]
fn aligned_buf_keeps_what_is_written() {
    let mut b = AlignedBuf::new(16, 64);
    assert_eq!(b.as_slice(), [0u8; 16]);
    b.as_mut_slice()[3] = 7;
    assert_eq!(b.as_slice()[3], 7);
}

#[test]
fn refuses_output_equal_to_source() {
    let p = Some(file(1, 10));
    assert!(matches!(
        check_output_safety("src.bin", p.clone(), "src.bin", p.clone()),
        Err(DeviceError::OutputIsSource(_))
    ));
    // Different file in the same dir is fine (source is a regular file).
    assert!(check_output_safety("src.bin", p.clone(), "out.img", Some(file(1, 2))).is_ok());
    // What cannot be looked at is not refused.
    assert!(check_output_safety("src.bin", None, "out.img", p.clone()).is_ok());
    assert!(check_output_safety("src.bin", p, "out.img", None).is_ok());
}

#[test]
fn refuses_output_on_the_source_device() {
    let disk = node(5, 100, 0x810);
    assert!(same_file(&disk, &node(5, 100, 0)));
    // A file on a filesystem of that device.
    assert!(output_on_source_device(&disk, &file(0x810, 7)));
    // Another node of the device.
    assert!(output_on_source_device(&disk, &node(5, 101, 0x810)));
    assert!(!output_on_source_device(&disk, &file(0x820, 7)));
    // A regular file is no device.
    assert!(!output_on_source_device(&file(1, 1), &file(0, 7)));
    // A filesystem on the first partition of the disk, and one on a volume
    // that is built on that partition.
    let mut out = file(0x811, 7);
    assert!(!output_on_source_device(&disk, &out));
    out.under = vec![0x810];
    assert!(output_on_source_device(&disk, &out));
    out.dev = 0xFD00;
    out.under = vec![0x811, 0x810];
    assert!(matches!(
        check_output_safety("/dev/sdb", Some(disk.clone()), "out.img", Some(out.clone())),
        Err(DeviceError::OutputOnSource { .. })
    ));
    assert!(check_output_safety("/dev/sdc", Some(node(5, 102, 0x820)), "out.img", Some(out)).is_ok());
    let e = check_output_safety("/dev/sdb", Some(disk), "out.img", Some(file(0x810, 7)))
        .unwrap_err();
    assert!(matches!(e, DeviceError::OutputOnSource { .. }));
    assert_eq!(
        e.message(),
        "refusing to write out.img onto the source device /dev/sdb"
    );
}

#[test]
fn clobber_rule() {
    assert!(check_clobber("out.img", false, false, false).is_ok()); // nothing exists
    assert!(check_clobber("out.img", true, false, false).is_err()); // image w/o map
    assert!(check_clobber("out.img", true, false, true).is_ok()); // forced
    assert!(check_clobber("out.img", true, true, false).is_ok()); // resume
}

#[test]
fn messages() {
    assert_eq!(
        check_clobber("out.img", true, false, false)
            .unwrap_err()
            .message(),
        "out.img exists but its mapfile does not; pass --force to overwrite, \
         or supply the original mapfile to resume"
    );
    assert_eq!(
        DeviceError::OutputIsSource("a".to_string()).message(),
        "output a is the same file as the source"
    );
    assert_eq!(
        DeviceError::BlockUnsupported("/dev/x".to_string()).message(),
        "block devices are not supported on this platform: /dev/x"
    );
    let e = DeviceError::Open {
        path: "a".to_string(),
        source: std::io::Error::new(std::io::ErrorKind::NotFound, "gone"),
    };
    assert_eq!(e.message(), "cannot open a: ");
}

#[test]
fn sector_size_of_a_source() {
    assert_eq!(parse_sector_size("4096\n"), Some(4096));
    assert_eq!(parse_sector_size(" 512 "), Some(512));
    assert_eq!(parse_sector_size("0x200"), None);
    assert_eq!(parse_sector_size("4294967296"), None);
    assert_eq!(parse_sector_size(""), None);
    assert_eq!(choose_sector_size(Some(4096), Some(512)), 4096);
    assert_eq!(choose_sector_size(None, Some(1024)), 1024);
    assert_eq!(choose_sector_size(None, None), 512);
}

#[test]
fn device_numbers_of_a_system_file() {
    assert_eq!(parse_device("8:16\n"), Some((8, 16)));
    assert_eq!(parse_device(" 253:0 "), Some((253, 0)));
    assert_eq!(parse_device("8"), None);
    assert_eq!(parse_device("8:x"), None);
    assert_eq!(parse_device("4294967296:0"), None);
}
