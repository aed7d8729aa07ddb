use raft::config::ConfigurationState;
use raft::peer::{Peer, PeerManager};

fn peer(id: u64, matched: u64, voted: bool, in_new: bool, in_old: bool) -> Peer {
    Peer {
        server_id: id,
        server_addr: format!("p{}", id),
        next_index: matched + 1,
        match_index: matched,
        vote_granted: voted,
        configuration_state: ConfigurationState { in_new, in_old },
    }
}

fn manager(peers: Vec<Peer>) -> PeerManager {
    let mut m = PeerManager::new();
    m.add_peers(peers);
    m
}

#[test]
fn commit_index_is_the_median_match_index() {
    let m = manager(vec![peer(2, 3, false, true, false), peer(3, 7, false, true, false)]);
    assert_eq!(m.quorum_match_index(&ConfigurationState::new(), 9), 7);
    let m = manager(vec![
        peer(2, 1, false, true, false),
        peer(3, 2, false, true, false),
        peer(4, 5, false, true, false),
    ]);
    assert_eq!(m.quorum_match_index(&ConfigurationState::new(), 9), 2);
}

#[test]
fn joint_consensus_takes_the_smaller_quorum() {
    let m = manager(vec![
        peer(2, 8, false, true, false),
        peer(3, 8, false, true, false),
        peer(4, 1, false, false, true),
        peer(5, 2, false, false, true),
    ]);
    let leader = ConfigurationState { in_new: false, in_old: true };
    assert_eq!(m.quorum_match_index(&leader, 9), 2);
}

#[test]
fn empty_configuration_sides_do_not_bound_the_commit_index() {
    let m = PeerManager::new();
    assert_eq!(m.quorum_match_index(&ConfigurationState { in_new: false, in_old: false }, 3), u64::MAX);
    assert_eq!(m.quorum_match_index(&ConfigurationState::new(), 3), 3);
}

#[test]
fn commit_index_after_a_match_counts_the_new_match() {
    let m = manager(vec![peer(2, 0, false, true, false), peer(3, 0, false, true, false)]);
    assert_eq!(m.quorum_match_index_after_match(&ConfigurationState::new(), 4, 3, 4), 4);
    assert_eq!(m.quorum_match_index(&ConfigurationState::new(), 4), 0);
}

#[test]
fn a_vote_needs_more_than_half_of_each_side() {
    let m = manager(vec![peer(2, 0, true, true, false), peer(3, 0, false, true, false)]);
    assert!(m.quorum_vote_granted(&ConfigurationState::new()));
    let m = manager(vec![
        peer(2, 0, false, true, false),
        peer(3, 0, false, true, false),
        peer(4, 0, true, true, false),
    ]);
    assert!(!m.quorum_vote_granted(&ConfigurationState::new()));
    let m = manager(vec![peer(2, 0, true, true, false), peer(3, 0, false, false, true)]);
    assert!(!m.quorum_vote_granted(&ConfigurationState { in_new: true, in_old: false }));
    assert!(PeerManager::new().quorum_vote_granted(&ConfigurationState { in_new: false, in_old: false }));
}

#[test]
fn peers_are_found_and_changed_by_id() {
    let mut m = manager(vec![peer(2, 0, true, true, false), peer(3, 0, true, true, false)]);
    assert!(m.contains(3));
    assert!(!m.contains(4));
    assert_eq!(m.peer_server_ids(), vec![2, 3]);
    assert_eq!(m.peers_num(), 2);
    m.peer(3).unwrap().match_index = 6;
    assert_eq!(m.peers()[1].match_index, 6);
    assert!(m.peer(4).is_none());
    assert_eq!(m.peer_position(3), 1);
    m.reset_vote();
    assert!(m.peers().iter().all(|p| !p.vote_granted));
    m.peers_mut()[0].next_index = 9;
    assert_eq!(m.peers()[0].next_index, 9);
}

#[test]
fn a_new_peer_starts_at_index_one() {
    let p = Peer::new(7, "x".to_string());
    assert_eq!((p.next_index, p.match_index, p.vote_granted), (1, 0, false));
    assert_eq!(p.configuration_state, ConfigurationState::new());
}

#[test]
fn commit_target_grows_with_match_indexes() {
    let before = manager(vec![
        peer(2, 1, false, true, false),
        peer(3, 2, false, true, false),
        peer(4, 5, false, true, false),
        peer(5, 0, false, true, false),
    ]);
    let after = manager(vec![
        peer(2, 4, false, true, false),
        peer(3, 2, false, true, false),
        peer(4, 5, false, true, false),
        peer(5, 6, false, true, false),
    ]);
    let low = before.quorum_match_index(&ConfigurationState::new(), 6);
    let high = after.quorum_match_index(&ConfigurationState::new(), 7);
    assert_eq!((low, high), (2, 5));
    assert!(low <= high);
}

#[test]
fn two_winning_tallies_share_a_voter() {
    let voter_only = ConfigurationState { in_new: false, in_old: false };
    let a = manager(vec![peer(2, 0, true, true, false), peer(3, 0, true, true, false), peer(4, 0, false, true, false)]);
    let b = manager(vec![peer(2, 0, false, true, false), peer(3, 0, true, true, false), peer(4, 0, true, true, false)]);
    assert!(a.quorum_vote_granted(&voter_only));
    assert!(b.quorum_vote_granted(&voter_only));
    let shared: Vec<u64> = a
        .peers()
        .iter()
        .zip(b.peers().iter())
        .filter(|(x, y)| x.vote_granted && y.vote_granted)
        .map(|(x, _)| x.server_id)
        .collect();
    assert_eq!(shared, vec![3]);
    let c = manager(vec![peer(2, 0, false, true, false), peer(3, 0, false, true, false), peer(4, 0, true, true, false)]);
    assert!(!c.quorum_vote_granted(&voter_only));
}
