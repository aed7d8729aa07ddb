use raft::config::{Configuration, ConfigurationState, ServerInfo};
use raft::log::Log;
use raft::peer::{Peer, PeerManager};
use raft::proto::EntryType;

#[test]
fn test_configuration() {
    let mut configuration = Configuration::new();
    configuration.old_servers.push(ServerInfo(1, "[::1]:9001".to_string()));
    configuration.new_servers.push(ServerInfo(2, "[::1]:9002".to_string()));

    let ser_data = configuration.to_data();
    let de_configuration = Configuration::from_data(&ser_data);

    assert_eq!(de_configuration, configuration);

    assert_eq!(configuration.query_configuration_state(1), ConfigurationState { in_new: false, in_old: true });
}

#[test]
fn test_log() {
    let mut log = Log::new(1, "./test".to_string());

    log.append_data(1, vec![(EntryType::Data, "test1".as_bytes().to_vec())]);

    log.append_data(1, vec![(EntryType::Data, "test2".as_bytes().to_vec())]);

    println!("{:?}", log);
    assert_eq!(log.entries().len(), 2);
    assert_eq!(log.start_index(), 1);
    assert_eq!(log.entry(1).unwrap().data, "test1".as_bytes());
    assert_eq!(log.entry(2).unwrap().data, "test2".as_bytes());
    assert_eq!(log.last_index(0), 2);
    assert_eq!(log.pack_entries(1).len(), 2);
    assert_eq!(log.pack_entries(2).len(), 1);
    assert_eq!(log.pack_entries(3).len(), 0);
}

#[test]
fn test_truncate_suffix() {
    let mut log = Log::new(2, "./test".to_string());
    log.append_data(1, vec![(EntryType::Data, "test1".as_bytes().to_vec())]);
    log.append_data(1, vec![(EntryType::Data, "test2".as_bytes().to_vec())]);
    log.append_data(1, vec![(EntryType::Data, "test3".as_bytes().to_vec())]);

    log.truncate_suffix(3);
    assert_eq!(log.entries().len(), 2);
}

#[test]
fn test_truncate_prefix() {
    let mut log = Log::new(1, "./test".to_string());
    log.append_data(1, vec![(EntryType::Data, "test1".as_bytes().to_vec())]);
    log.append_data(1, vec![(EntryType::Data, "test2".as_bytes().to_vec())]);
    log.append_data(1, vec![(EntryType::Data, "test3".as_bytes().to_vec())]);
    log.append_data(1, vec![(EntryType::Data, "test4".as_bytes().to_vec())]);
    log.append_data(1, vec![(EntryType::Data, "test5".as_bytes().to_vec())]);

    log.truncate_prefix(3);
    assert_eq!(log.entries().len(), 2);
    assert_eq!(log.start_index(), 4);

    log.append_data(1, vec![(EntryType::Data, "test6".as_bytes().to_vec())]);
    log.append_data(1, vec![(EntryType::Data, "test7".as_bytes().to_vec())]);
    log.append_data(1, vec![(EntryType::Data, "test8".as_bytes().to_vec())]);

    log.truncate_prefix(5);
    assert_eq!(log.entries().len(), 3);
    assert_eq!(log.start_index(), 6);
}

#[test]
fn test_peers() {
    let mut peer_manager = PeerManager::new();
    let peer1 = Peer {
        server_id: 1,
        server_addr: "127.0.0.1:9001".to_string(),
        next_index: 3,
        match_index: 2,
        vote_granted: false,
        configuration_state: ConfigurationState::new(),
    };
    let peer2 = Peer {
        server_id: 2,
        server_addr: "127.0.0.1:9002".to_string(),
        next_index: 2,
        match_index: 2,
        vote_granted: false,
        configuration_state: ConfigurationState::new(),
    };
    peer_manager.add_peers(vec![peer1, peer2]);
    println!("{:?}", peer_manager);
    assert_eq!(peer_manager.peers().len(), 2);
}
