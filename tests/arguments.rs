use omega13::arguments::{parse_arguments, ArgumentError, Command, CommandLine, Subcommand};
use omega13::radix::parse_number;

fn line(subcommand: Option<Subcommand>) -> CommandLine {
    CommandLine {
        subcommand,
        paths: vec![b"disk.img".to_vec()],
        index: None,
        subvolume_id: None,
        source: None,
        target: None,
        verify_checksums: false,
    }
}

#[test]
fn no_subcommand_gives_no_command() {
    assert!(matches!(parse_arguments(line(None)), Ok(None)));
}

#[test]
fn index_command_takes_index_and_paths() {
    let mut l = line(Some(Subcommand::Index));
    l.index = Some(b"nodes.idx".to_vec());
    match parse_arguments(l) {
        Ok(Some(Command::Index(c))) => {
            assert_eq!(c.index, b"nodes.idx".to_vec());
            assert_eq!(c.paths, vec![b"disk.img".to_vec()]);
        },
        _ => panic!("expected an index command"),
    }
}

#[test]
fn index_command_without_index_fails() {
    let l = line(Some(Subcommand::Index));
    assert!(matches!(parse_arguments(l), Err(ArgumentError::MissingIndex)));
}

#[test]
fn scan_command_without_paths_fails() {
    let mut l = line(Some(Subcommand::Scan));
    l.paths = vec![];
    assert!(matches!(parse_arguments(l), Err(ArgumentError::MissingPath)));
}

#[test]
fn restore_command_reads_decimal_subvolume_id() {
    let mut l = line(Some(Subcommand::Restore));
    l.subvolume_id = Some(b"256".to_vec());
    l.source = Some(b"/a".to_vec());
    l.target = Some(b"out".to_vec());
    match parse_arguments(l) {
        Ok(Some(Command::Restore(c))) => {
            assert_eq!(c.subvolume_id, 256);
            assert_eq!(c.source, b"/a".to_vec());
            assert_eq!(c.target, b"out".to_vec());
            assert_eq!(c.paths.len(), 1);
        },
        _ => panic!("expected a restore command"),
    }
}

#[test]
fn restore_command_rejects_bad_subvolume_id() {
    let mut l = line(Some(Subcommand::Restore));
    l.subvolume_id = Some(b"25x".to_vec());
    l.source = Some(b"/a".to_vec());
    l.target = Some(b"out".to_vec());
    assert!(matches!(parse_arguments(l), Err(ArgumentError::BadSubvolumeId)));
}

#[test]
fn restore_command_without_target_fails() {
    let mut l = line(Some(Subcommand::Restore));
    l.subvolume_id = Some(b"5".to_vec());
    l.source = Some(b"/".to_vec());
    assert!(matches!(parse_arguments(l), Err(ArgumentError::MissingTarget)));
}

#[test]
fn numbers_in_both_radixes() {
    assert_eq!(parse_number(b"c00000", 16), Some(0xc00000));
    assert_eq!(parse_number(b"C00000", 16), Some(0xc00000));
    assert_eq!(parse_number(b"+ff", 16), Some(255));
    assert_eq!(parse_number(b"1700000000", 10), Some(1700000000));
    assert_eq!(parse_number(b"18446744073709551615", 10), Some(u64::MAX));
    assert_eq!(parse_number(b"18446744073709551616", 10), None);
    assert_eq!(parse_number(b"ffffffffffffffff", 16), Some(u64::MAX));
    assert_eq!(parse_number(b"10000000000000000", 16), None);
    assert_eq!(parse_number(b"", 16), None);
    assert_eq!(parse_number(b"+", 10), None);
    assert_eq!(parse_number(b"-1", 10), None);
    assert_eq!(parse_number(b"ab", 10), None);
}
