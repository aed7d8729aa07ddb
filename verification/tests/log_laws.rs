use raft::config::{Configuration, ServerInfo};
use raft::consensus::log_is_usable;
use raft::log::Log;
use raft::proto::{EntryType, LogEntry};

fn data_log(start: u64, n: u64) -> Log {
    let mut log = Log::new(start, "./meta".to_string());
    for i in 0..n {
        log.append_data(1 + i / 2, vec![(EntryType::Data, format!("d{}", i).into_bytes())]);
    }
    log
}

#[test]
fn appended_data_is_read_back_at_the_next_indexes() {
    let mut log = data_log(1, 2);
    log.append_data(
        3,
        vec![(EntryType::Data, b"x".to_vec()), (EntryType::Noop, Vec::new()), (EntryType::Data, b"y".to_vec())],
    );
    assert_eq!(log.last_index(0), 5);
    let e3 = log.entry(3).unwrap();
    assert_eq!((e3.index, e3.term, e3.entry_type, e3.data.clone()), (3, 3, EntryType::Data, b"x".to_vec()));
    assert_eq!(log.entry(4).unwrap().entry_type(), EntryType::Noop);
    assert_eq!(log.entry(5).unwrap().data, b"y".to_vec());
    assert_eq!(log.entry(1).unwrap().data, b"d0".to_vec());
    assert!(log.entry(6).is_none());
}

#[test]
fn entries_before_the_start_read_as_the_virtual_entry() {
    let log = data_log(5, 1);
    let e = log.entry(2).unwrap();
    assert_eq!((e.index, e.term, e.entry_type, e.data.len()), (0, 0, EntryType::Noop, 0));
    assert_eq!(log.entry(5).unwrap().index, 5);
}

#[test]
fn last_index_and_term_of_an_empty_log() {
    let log = Log::new(4, "./meta".to_string());
    assert_eq!(log.last_index(0), 3);
    assert_eq!(log.last_index(9), 9);
    assert_eq!(log.last_term(0), 0);
    assert_eq!(log.last_term(7), 7);
    let log = data_log(1, 3);
    assert_eq!(log.last_index(9), 3);
    assert_eq!(log.last_term(7), 2);
}

#[test]
fn truncate_suffix_keeps_up_to_the_index() {
    let mut log = data_log(1, 5);
    log.truncate_suffix(3);
    assert_eq!(log.last_index(0), 3);
    assert!(log.entry(4).is_none());
    assert_eq!(log.entry(3).unwrap().data, b"d2".to_vec());
    log.truncate_suffix(10);
    assert_eq!(log.entries().len(), 3);
    log.truncate_suffix(0);
    assert_eq!(log.entries().len(), 0);
    assert_eq!((log.start_index(), log.last_index(0)), (1, 0));
}

#[test]
fn truncate_prefix_moves_the_start() {
    let mut log = data_log(1, 5);
    log.truncate_prefix(2);
    assert_eq!(log.start_index(), 3);
    assert_eq!(log.last_index(0), 5);
    assert_eq!(log.entry(3).unwrap().data, b"d2".to_vec());
    assert_eq!(log.entry(1).unwrap().index, 0);
    log.truncate_prefix(1);
    assert_eq!(log.start_index(), 3);
}

#[test]
fn pack_entries_gives_the_suffix() {
    let log = data_log(3, 4);
    let packed = log.pack_entries(4);
    assert_eq!(packed.iter().map(|e| e.index).collect::<Vec<u64>>(), vec![4, 5, 6]);
    assert_eq!(log.pack_entries(1).len(), 0);
    assert_eq!(log.pack_entries(7).len(), 0);
}

#[test]
fn committed_entries_len_counts_from_the_start() {
    let log = data_log(3, 4);
    assert_eq!(log.committed_entries_len(2), 0);
    assert_eq!(log.committed_entries_len(3), 1);
    assert_eq!(log.committed_entries_len(5), 3);
}

#[test]
fn prev_log_term_uses_the_snapshot_term_at_its_index() {
    let log = data_log(1, 4);
    assert_eq!(log.prev_log_term(0, 0, 9), 9);
    assert_eq!(log.prev_log_term(3, 0, 9), 2);
}

#[test]
fn last_configuration_is_the_latest_configuration_entry() {
    let mut log = data_log(1, 1);
    assert!(log.last_configuration().is_none());
    let mut first = Configuration::new();
    first.new_servers.push(ServerInfo(1, "a".to_string()));
    let mut second = Configuration::new();
    second.old_servers.push(ServerInfo(2, "b".to_string()));
    second.new_servers.push(ServerInfo(3, "c".to_string()));
    log.append_data(1, vec![(EntryType::Configuration, first.to_data())]);
    log.append_data(1, vec![(EntryType::Configuration, second.to_data())]);
    log.append_data(1, vec![(EntryType::Data, b"z".to_vec())]);
    assert_eq!(log.last_configuration(), Some(second));
}

#[test]
fn append_entries_keeps_entries_as_given() {
    let mut log = Log::new(1, "./meta".to_string());
    log.append_entries(vec![
        LogEntry { index: 1, term: 4, entry_type: EntryType::Data, data: b"p".to_vec() },
        LogEntry { index: 2, term: 5, entry_type: EntryType::Noop, data: Vec::new() },
    ]);
    assert_eq!(log.last_term(0), 5);
    assert_eq!(log.entry(1).unwrap().term, 4);
}

#[test]
fn log_file_path_is_in_the_metadata_dir() {
    assert_eq!(Log::gen_log_filepath(&"/var/raft".to_string()), "/var/raft/raft.log");
    let log = Log::restore(Vec::new(), 7, "/m".to_string());
    assert_eq!(log.start_index(), 7);
    assert_eq!(log.metadata_dir(), "/m");
}

#[test]
fn a_read_back_log_is_checked_before_use() {
    let ok = Log::restore(vec![LogEntry { index: 1, term: 1, entry_type: EntryType::Data, data: vec![1] }], 1, "./m".to_string());
    assert!(log_is_usable(&ok));
    let ahead = Log::restore(vec![LogEntry { index: 3, term: 1, entry_type: EntryType::Data, data: vec![1] }], 1, "./m".to_string());
    assert!(!log_is_usable(&ahead));
    let zero = Log::restore(Vec::new(), 0, "./m".to_string());
    assert!(!log_is_usable(&zero));
    let undecodable = Log::restore(vec![LogEntry { index: 1, term: 1, entry_type: EntryType::Configuration, data: vec![9] }], 1, "./m".to_string());
    assert!(!log_is_usable(&undecodable));
}
