use raft::config::{Configuration, ConfigurationState, ServerInfo};
use raft::peer::Peer;
use raft::proto::Server;

#[test]
fn encoding_an_empty_configuration_gives_two_zero_lengths() {
    assert_eq!(Configuration::new().to_data(), vec![0u8; 16]);
}

#[test]
fn decoding_gives_back_what_was_encoded() {
    let mut c = Configuration::new();
    c.old_servers.push(ServerInfo(5, "old".to_string()));
    c.new_servers.push(ServerInfo(6, "new".to_string()));
    c.new_servers.push(ServerInfo(7, "newer".to_string()));
    assert_eq!(Configuration::try_from_data(&c.to_data()), Some(c));
}

#[test]
fn bytes_that_encode_no_configuration_are_rejected() {
    assert_eq!(Configuration::try_from_data(&vec![1, 2, 3]), None);
}

#[test]
fn the_new_configuration_keeps_only_the_new_servers() {
    let mut c = Configuration::new();
    c.old_servers.push(ServerInfo(1, "a".to_string()));
    c.new_servers.push(ServerInfo(2, "b".to_string()));
    let n = c.gen_new_configuration();
    assert!(n.old_servers.is_empty());
    assert_eq!(n.new_servers, vec![ServerInfo(2, "b".to_string())]);
}

#[test]
fn servers_and_peers_are_appended_in_order() {
    let mut c = Configuration::new();
    c.append_new_servers(&vec![
        Server { server_id: 3, server_addr: "c".to_string() },
        Server { server_id: 4, server_addr: "d".to_string() },
    ]);
    c.append_old_peers(&vec![Peer::new(1, "a".to_string())]);
    assert_eq!(c.new_servers, vec![ServerInfo(3, "c".to_string()), ServerInfo(4, "d".to_string())]);
    assert_eq!(c.old_servers, vec![ServerInfo(1, "a".to_string())]);
    assert_eq!(c.query_configuration_state(4), ConfigurationState { in_new: true, in_old: false });
    assert_eq!(c.query_configuration_state(9), ConfigurationState { in_new: false, in_old: false });
}
