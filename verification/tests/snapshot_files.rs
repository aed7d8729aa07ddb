use raft::snapshot::{Snapshot, UnreadableSnapshotName};
use raft::util::{has_suffix, local_address, parse_u64};

#[test]
fn snapshot_paths_name_index_and_term() {
    let s = Snapshot::new("/snap".to_string());
    assert_eq!(s.gen_snapshot_filepath(12, 3), "/snap/raft-12-3.snapshot");
    assert_eq!(s.gen_snapshot_metadata_filepath(12, 3), "/snap/raft-12-3.snapshot.metadata");
    assert_eq!(s.gen_tmp_snapshot_filepath(0, 7), "/snap/raft-0-7.snapshot.tmp");
    assert_eq!(s.gen_tmp_snapshot_metadata_filepath(5, 6), "/snap/raft-5-6.snapshot.metadata.tmp");
}

#[test]
fn taking_snapshot_metadata_records_it() {
    let mut s = Snapshot::new("/snap".to_string());
    let path = s.take_snapshot_metadata(8, 2, None);
    assert_eq!((s.last_included_index, s.last_included_term), (8, 2));
    assert_eq!(path, "/snap/raft-8-2.snapshot.metadata");
}

#[test]
fn the_latest_snapshot_is_found_by_index_then_term() {
    let s = Snapshot::new("/d".to_string());
    let names: Vec<String> = vec![
        "raft-3-1.snapshot", "raft-10-2.snapshot", "raft-10-5.snapshot.metadata", "raft-10-1.snapshot", "notes.txt",
    ]
    .into_iter()
    .map(|n| n.to_string())
    .collect();
    assert_eq!(s.latest_snapshot_filepath(&names), Ok(Some("/d/raft-10-2.snapshot".to_string())));
    assert_eq!(s.latest_metadata_filepath(&names), Ok(Some("/d/raft-10-5.snapshot.metadata".to_string())));
    assert_eq!(s.latest_snapshot_filepath(&Vec::new()), Ok(None));
    let zero = vec!["raft-0-4.snapshot".to_string()];
    assert_eq!(s.latest_snapshot_filepath(&zero), Ok(None));
}

#[test]
fn a_snapshot_name_without_numbers_is_reported() {
    let s = Snapshot::new("/d".to_string());
    let names = vec!["raft-1-1.snapshot".to_string(), "broken.snapshot".to_string()];
    assert_eq!(s.latest_snapshot_filepath(&names), Err(UnreadableSnapshotName { position: 1 }));
    let huge = vec!["raft-99999999999999999999-1.snapshot".to_string()];
    assert_eq!(s.latest_snapshot_filepath(&huge), Err(UnreadableSnapshotName { position: 0 }));
}

#[test]
fn decimal_numbers_are_read_as_str_parse_reads_them() {
    assert_eq!(parse_u64("42"), Some(42));
    assert_eq!(parse_u64("+7"), Some(7));
    assert_eq!(parse_u64("18446744073709551615"), Some(u64::MAX));
    assert_eq!(parse_u64("18446744073709551616"), None);
    assert_eq!(parse_u64(""), None);
    assert_eq!(parse_u64("+"), None);
    assert_eq!(parse_u64("1a"), None);
    for s in ["0", "001", "123456", "+0"] {
        assert_eq!(parse_u64(s), s.parse::<u64>().ok());
    }
}

#[test]
fn suffixes_and_addresses() {
    assert!(has_suffix("a.snapshot", ".snapshot"));
    assert!(!has_suffix("a.snapshot.metadata", ".snapshot"));
    assert!(!has_suffix("x", ".snapshot"));
    assert_eq!(local_address(9002), "[::1]:9002");
}

#[test]
fn decimal_text_of_edge_numbers() {
    assert_eq!(local_address(0), "[::1]:0");
    assert_eq!(local_address(u32::MAX), "[::1]:4294967295");
    let s = Snapshot::new("/s".to_string());
    assert_eq!(s.gen_snapshot_filepath(u64::MAX, 10), "/s/raft-18446744073709551615-10.snapshot");
    assert_eq!(s.gen_tmp_snapshot_filepath(9, 100), "/s/raft-9-100.snapshot.tmp");
}

#[test]
fn the_latest_pair_is_chosen_from_the_captured_groups() {
    let names: Vec<String> = vec!["raft-3-1.snapshot", "notes.txt", "raft-10-2.snapshot", "raft-10-1.snapshot"]
        .into_iter()
        .map(String::from)
        .collect();
    let caps = vec![
        Some(("3".to_string(), "1".to_string())),
        None,
        Some(("10".to_string(), "2".to_string())),
        Some(("10".to_string(), "1".to_string())),
    ];
    assert_eq!(Snapshot::latest_index_term_of_captures(&names, ".snapshot", &caps), Ok((10, 2)));
    let bad = vec![
        Some(("3".to_string(), "1".to_string())),
        None,
        Some(("x".to_string(), "2".to_string())),
        None,
    ];
    assert_eq!(Snapshot::latest_index_term_of_captures(&names, ".snapshot", &bad), Err(2));
    let none: Vec<String> = Vec::new();
    assert_eq!(Snapshot::latest_index_term_of_captures(&none, ".snapshot", &Vec::new()), Ok((0, 0)));
}
