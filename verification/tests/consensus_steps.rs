use raft::config::{Configuration, ServerInfo, NONE_SERVER_ID};
use raft::consensus::{Action, Consensus, ReplicateError, State};
use raft::peer::Peer;
use raft::proto::{
    AppendEntriesReq, AppendEntriesResp, EntryType, GetConfigurationReq, GetLeaderReq, InstallSnapshotReq,
    LogEntry, RequestVoteReq, RequestVoteResp, Server, SetConfigurationReq,
};

fn describe(actions: &[Action]) -> Vec<String> {
    actions
        .iter()
        .map(|a| match a {
            Action::ResetElectionTimer => "reset".to_string(),
            Action::ApplyData(d) => format!("apply {}", String::from_utf8_lossy(d)),
            Action::ReplicateToPeers(h) => format!("replicate {}", h),
            Action::RequestVotes => "request votes".to_string(),
        })
        .collect()
}

fn entry(index: u64, term: u64, data: &str) -> LogEntry {
    LogEntry { index, term, entry_type: EntryType::Data, data: data.as_bytes().to_vec() }
}

fn single_leader() -> Consensus {
    let mut c = Consensus::new(1, 9001, Vec::new(), "./meta".to_string());
    c.handle_election_timeout();
    c.finish_request_vote();
    c.take_actions();
    c
}

#[test]
fn a_new_server_is_a_follower_in_term_zero() {
    let c = Consensus::new(1, 9001, vec![Peer::new(2, "b".to_string())], "./meta".to_string());
    assert_eq!(c.server_addr, "[::1]:9001");
    assert_eq!((c.current_term, c.state, c.voted_for, c.commit_index), (0, State::Follower, NONE_SERVER_ID, 0));
    assert_eq!(c.log.start_index(), 1);
    assert_eq!(c.peer_manager.peers_num(), 1);
}

#[test]
fn election_timeout_starts_an_election_in_the_next_term() {
    let mut c = Consensus::new(1, 9001, vec![Peer::new(2, "b".to_string())], "./meta".to_string());
    c.handle_election_timeout();
    assert_eq!((c.state, c.current_term, c.voted_for), (State::Candidate, 1, 1));
    assert_eq!(describe(&c.take_actions()), vec!["reset", "request votes"]);
    let req = c.request_vote_request();
    assert_eq!(req, RequestVoteReq { term: 1, candidate_id: 1, last_log_index: 0, last_log_term: 0 });
    c.handle_election_timeout();
    assert_eq!((c.state, c.current_term), (State::Candidate, 2));
}

#[test]
fn a_lone_candidate_becomes_leader_and_appends_a_noop_entry() {
    let mut c = Consensus::new(1, 9001, Vec::new(), "./meta".to_string());
    c.handle_election_timeout();
    c.finish_request_vote();
    assert_eq!((c.state, c.leader_id), (State::Leader, 1));
    let noop = c.log.entry(1).unwrap();
    assert_eq!((noop.index, noop.term, noop.entry_type, noop.data.clone()), (1, 1, EntryType::Noop, b"None".to_vec()));
    assert_eq!(describe(&c.take_actions()), vec!["reset", "request votes", "replicate false"]);
    assert!(c.can_append_entries());
    assert!(c.append_entries(false));
    assert_eq!(c.commit_index, 1);
}

#[test]
fn a_leader_without_peers_commits_and_applies_replicated_data() {
    let mut c = single_leader();
    assert!(c.append_entries(false));
    assert_eq!(c.replicate(EntryType::Data, b"hello".to_vec()), Ok(()));
    assert_eq!(c.log.last_index(0), 2);
    assert!(c.append_entries(false));
    assert_eq!(c.commit_index, 2);
    assert_eq!(describe(&c.take_actions()), vec!["replicate false", "apply hello"]);
}

#[test]
fn a_follower_refuses_to_replicate() {
    let mut c = Consensus::new(1, 9001, Vec::new(), "./meta".to_string());
    assert_eq!(c.replicate(EntryType::Data, b"x".to_vec()), Err(ReplicateError::NotLeader));
    assert_eq!(c.log.entries().len(), 0);
    assert!(!c.append_entries(true));
}

#[test]
fn votes_go_to_one_candidate_per_term() {
    let mut c = Consensus::new(3, 9003, Vec::new(), "./meta".to_string());
    let r1 = RequestVoteReq { term: 2, candidate_id: 1, last_log_index: 0, last_log_term: 0 };
    assert!(c.can_handle_request_vote(&r1));
    assert_eq!(c.handle_request_vote(&r1), RequestVoteResp { term: 2, vote_granted: true });
    assert_eq!((c.current_term, c.voted_for), (2, 1));
    let r2 = RequestVoteReq { term: 2, candidate_id: 2, last_log_index: 0, last_log_term: 0 };
    assert_eq!(c.handle_request_vote(&r2), RequestVoteResp { term: 2, vote_granted: false });
    assert_eq!(c.handle_request_vote(&r1), RequestVoteResp { term: 2, vote_granted: true });
    let stale = RequestVoteReq { term: 1, candidate_id: 2, last_log_index: 9, last_log_term: 1 };
    assert_eq!(c.handle_request_vote(&stale), RequestVoteResp { term: 2, vote_granted: false });
}

#[test]
fn a_vote_is_refused_to_a_candidate_behind_in_log() {
    let mut c = Consensus::new(3, 9003, Vec::new(), "./meta".to_string());
    let req = AppendEntriesReq {
        term: 3, leader_id: 1, prev_log_index: 0, prev_log_term: 0,
        entries: vec![entry(1, 3, "a"), entry(2, 3, "b")], leader_commit: 0,
    };
    c.handle_append_entries(&req);
    let behind = RequestVoteReq { term: 3, candidate_id: 2, last_log_index: 1, last_log_term: 3 };
    assert_eq!(c.handle_request_vote(&behind), RequestVoteResp { term: 3, vote_granted: false });
}

#[test]
fn a_candidate_steps_down_on_a_newer_term_in_a_vote_reply() {
    let mut c = Consensus::new(1, 9001, vec![Peer::new(2, "b".to_string()), Peer::new(3, "c".to_string())], "./meta".to_string());
    c.handle_election_timeout();
    c.take_actions();
    let leader_before = c.leader_id;
    assert!(c.handle_request_vote_response(2, &RequestVoteResp { term: 5, vote_granted: false }));
    assert_eq!((c.state, c.current_term, c.voted_for), (State::Follower, 5, NONE_SERVER_ID));
    assert_eq!(c.leader_id, leader_before);
    assert!(c.take_actions().is_empty());
}

#[test]
fn a_candidate_wins_with_a_majority_of_votes() {
    let mut c = Consensus::new(1, 9001, vec![Peer::new(2, "b".to_string()), Peer::new(3, "c".to_string())], "./meta".to_string());
    c.handle_election_timeout();
    assert!(c.can_handle_request_vote_response(2));
    assert!(c.handle_request_vote_response(2, &RequestVoteResp { term: 1, vote_granted: true }));
    assert_eq!(c.state, State::Leader);
}

#[test]
fn a_candidate_with_too_few_votes_stays_a_candidate() {
    let mut c = Consensus::new(
        1,
        9001,
        vec![Peer::new(2, "b".to_string()), Peer::new(3, "c".to_string()), Peer::new(4, "d".to_string())],
        "./meta".to_string(),
    );
    c.handle_election_timeout();
    assert!(!c.handle_request_vote_response(2, &RequestVoteResp { term: 1, vote_granted: true }));
    c.finish_request_vote();
    assert_eq!(c.state, State::Candidate);
}

#[test]
fn append_entries_from_an_older_term_is_refused() {
    let mut c = Consensus::new(3, 9003, Vec::new(), "./meta".to_string());
    c.handle_election_timeout();
    c.handle_election_timeout();
    let req = AppendEntriesReq { term: 1, leader_id: 1, prev_log_index: 0, prev_log_term: 0, entries: Vec::new(), leader_commit: 0 };
    assert_eq!(c.handle_append_entries(&req), AppendEntriesResp { term: 2, success: false });
    assert_eq!(c.state, State::Candidate);
}

#[test]
fn a_follower_stores_entries_and_commits_with_the_leader() {
    let mut c = Consensus::new(3, 9003, Vec::new(), "./meta".to_string());
    let req = AppendEntriesReq {
        term: 1, leader_id: 1, prev_log_index: 0, prev_log_term: 0,
        entries: vec![entry(1, 1, "a"), entry(2, 1, "b")], leader_commit: 1,
    };
    assert!(c.can_handle_append_entries(&req));
    assert_eq!(c.handle_append_entries(&req), AppendEntriesResp { term: 1, success: true });
    assert_eq!((c.state, c.leader_id, c.commit_index), (State::Follower, 1, 1));
    assert_eq!(c.log.last_index(0), 2);
    assert_eq!(describe(&c.take_actions()), vec!["reset", "apply a"]);
    let heartbeat = AppendEntriesReq { term: 1, leader_id: 1, prev_log_index: 2, prev_log_term: 1, entries: Vec::new(), leader_commit: 5 };
    assert_eq!(c.handle_append_entries(&heartbeat), AppendEntriesResp { term: 1, success: true });
    assert_eq!(c.commit_index, 2);
    assert_eq!(describe(&c.take_actions()), vec!["reset", "apply b"]);
}

#[test]
fn a_conflicting_entry_replaces_the_rest_of_the_log() {
    let mut c = Consensus::new(3, 9003, Vec::new(), "./meta".to_string());
    let first = AppendEntriesReq {
        term: 1, leader_id: 1, prev_log_index: 0, prev_log_term: 0,
        entries: vec![entry(1, 1, "a"), entry(2, 1, "b"), entry(3, 1, "c")], leader_commit: 0,
    };
    c.handle_append_entries(&first);
    let second = AppendEntriesReq {
        term: 2, leader_id: 2, prev_log_index: 1, prev_log_term: 1,
        entries: vec![entry(2, 2, "x")], leader_commit: 0,
    };
    assert_eq!(c.handle_append_entries(&second), AppendEntriesResp { term: 2, success: true });
    assert_eq!(c.log.last_index(0), 2);
    assert_eq!(c.log.entry(2).unwrap().data, b"x".to_vec());
    assert_eq!(c.log.entry(1).unwrap().data, b"a".to_vec());
}

#[test]
fn a_missing_or_mismatched_previous_entry_is_refused() {
    let mut c = Consensus::new(3, 9003, Vec::new(), "./meta".to_string());
    let gap = AppendEntriesReq { term: 1, leader_id: 1, prev_log_index: 4, prev_log_term: 1, entries: vec![entry(5, 1, "e")], leader_commit: 0 };
    assert_eq!(c.handle_append_entries(&gap), AppendEntriesResp { term: 1, success: false });
    assert_eq!(c.current_term, 1);
    let first = AppendEntriesReq { term: 1, leader_id: 1, prev_log_index: 0, prev_log_term: 0, entries: vec![entry(1, 1, "a"), entry(2, 1, "b")], leader_commit: 0 };
    c.handle_append_entries(&first);
    let mismatch = AppendEntriesReq { term: 1, leader_id: 1, prev_log_index: 2, prev_log_term: 7, entries: vec![entry(3, 1, "c")], leader_commit: 0 };
    assert_eq!(c.handle_append_entries(&mismatch), AppendEntriesResp { term: 1, success: false });
    let misnumbered = AppendEntriesReq { term: 1, leader_id: 1, prev_log_index: 2, prev_log_term: 1, entries: vec![entry(4, 1, "d")], leader_commit: 0 };
    assert_eq!(c.handle_append_entries(&misnumbered), AppendEntriesResp { term: 1, success: false });
    assert_eq!(c.log.last_index(0), 2);
}

#[test]
fn a_leader_builds_requests_and_takes_replies() {
    let mut c = Consensus::new(1, 9001, vec![Peer::new(2, "b".to_string()), Peer::new(3, "c".to_string())], "./meta".to_string());
    c.handle_election_timeout();
    assert!(c.handle_request_vote_response(2, &RequestVoteResp { term: 1, vote_granted: true }));
    c.replicate(EntryType::Data, b"v".to_vec()).unwrap();
    assert!(c.can_build_append_entries_request(2));
    let hb = c.append_entries_request(2, true);
    assert_eq!((hb.prev_log_index, hb.prev_log_term, hb.entries.len()), (0, 0, 0));
    let plain = c.append_entries_request(2, false);
    assert_eq!(plain.entries.iter().map(|e| e.index).collect::<Vec<u64>>(), vec![1, 2]);
    assert_eq!((plain.term, plain.leader_id, plain.leader_commit), (1, 1, 0));
    let ok = AppendEntriesResp { term: 1, success: true };
    assert!(c.can_handle_append_entries_response(2, &plain, &ok));
    c.take_actions();
    assert!(c.handle_append_entries_response(2, &plain, &ok));
    assert_eq!(c.peer_manager.peers()[0].match_index, 2);
    assert_eq!(c.peer_manager.peers()[0].next_index, 3);
    assert_eq!(c.commit_index, 2);
    assert_eq!(describe(&c.take_actions()), vec!["apply v"]);
    let no = AppendEntriesResp { term: 1, success: false };
    c.peer_manager.peer(3).unwrap().next_index = 3;
    assert!(!c.handle_append_entries_response(3, &plain, &no));
    assert_eq!(c.peer_manager.peers()[1].next_index, 2);
    let newer = AppendEntriesResp { term: 4, success: false };
    assert!(!c.handle_append_entries_response(3, &plain, &newer));
    assert_eq!((c.state, c.current_term, c.voted_for), (State::Follower, 4, NONE_SERVER_ID));
}

#[test]
fn heartbeat_timeout_starts_a_round_only_on_a_leader() {
    let mut c = single_leader();
    c.handle_heartbeat_timeout();
    assert_eq!(describe(&c.take_actions()), vec!["replicate true"]);
    let mut f = Consensus::new(2, 9002, Vec::new(), "./meta".to_string());
    f.handle_heartbeat_timeout();
    assert!(f.take_actions().is_empty());
    f.handle_snapshot_timeout();
}

#[test]
fn membership_change_goes_through_a_joint_configuration() {
    let mut c = single_leader();
    c.append_entries(false);
    let req = SetConfigurationReq { new_servers: vec![Server { server_id: 1, server_addr: "[::1]:9001".to_string() }, Server { server_id: 2, server_addr: "b".to_string() }] };
    assert!(c.handle_set_configuration(&req).success);
    let joint = c.log.last_configuration().unwrap();
    assert_eq!(joint.old_servers, vec![ServerInfo(1, "[::1]:9001".to_string())]);
    assert_eq!(joint.new_servers.len(), 2);
    assert_eq!(c.peer_manager.peer_server_ids(), vec![2]);
    assert!(c.configuration_state.in_new && c.configuration_state.in_old);
    assert!(!c.handle_set_configuration(&req).success);
    assert!(!c.handle_set_configuration(&SetConfigurationReq { new_servers: Vec::new() }).success);
    let round = c.append_entries_request(2, false);
    assert_eq!(round.entries.len(), 2);
    let ok = AppendEntriesResp { term: 1, success: true };
    assert!(c.can_handle_append_entries_response(2, &round, &ok));
    c.handle_append_entries_response(2, &round, &ok);
    assert_eq!(c.commit_index, 2);
    let last = c.log.last_configuration().unwrap();
    assert!(last.old_servers.is_empty());
    assert_eq!(last.new_servers, joint.new_servers);
    assert_eq!(c.log.last_index(0), 3);
}

#[test]
fn leader_and_configuration_queries() {
    let mut c = Consensus::new(3, 9003, vec![Peer::new(1, "a".to_string())], "./meta".to_string());
    assert!(c.handle_get_leader(&GetLeaderReq {}).leader.is_none());
    let req = AppendEntriesReq { term: 1, leader_id: 1, prev_log_index: 0, prev_log_term: 0, entries: Vec::new(), leader_commit: 0 };
    c.handle_append_entries(&req);
    let leader = c.handle_get_leader(&GetLeaderReq {}).leader.unwrap();
    assert_eq!((leader.server_id, leader.server_addr.as_str()), (1, "a"));
    let servers = c.handle_get_configuration(&GetConfigurationReq {}).servers;
    assert_eq!(servers.iter().map(|s| s.server_id).collect::<Vec<u64>>(), vec![1, 3]);
    let lone = single_leader();
    let mut lone = lone;
    assert_eq!(lone.handle_get_leader(&GetLeaderReq {}).leader.unwrap().server_addr, "[::1]:9001");
    let snap = InstallSnapshotReq { term: 5, leader_id: 1, last_included_index: 0, last_included_term: 0, data: Vec::new() };
    assert_eq!(lone.handle_install_snapshot(&snap).term, 1);
}

#[test]
fn undecodable_configuration_entries_are_detected() {
    let mut c = Consensus::new(3, 9003, Vec::new(), "./meta".to_string());
    let bad = AppendEntriesReq {
        term: 1, leader_id: 1, prev_log_index: 0, prev_log_term: 0,
        entries: vec![LogEntry { index: 1, term: 1, entry_type: EntryType::Configuration, data: vec![9] }],
        leader_commit: 0,
    };
    assert!(!c.can_handle_append_entries(&bad));
    let good = AppendEntriesReq {
        term: 1, leader_id: 1, prev_log_index: 0, prev_log_term: 0,
        entries: vec![LogEntry { index: 1, term: 1, entry_type: EntryType::Configuration, data: Configuration::new().to_data() }],
        leader_commit: u64::MAX,
    };
    assert!(c.can_handle_append_entries(&good));
    assert_eq!(c.handle_append_entries(&good), AppendEntriesResp { term: 1, success: true });
    assert_eq!(c.commit_index, 1);
    assert!(!c.can_replicate(EntryType::Configuration, &vec![9]) || c.state != State::Leader);
}

#[test]
fn a_refused_request_needs_no_decodable_configuration() {
    let mut c = Consensus::new(3, 9003, Vec::new(), "./meta".to_string());
    c.handle_append_entries(&AppendEntriesReq { term: 2, leader_id: 1, prev_log_index: 0, prev_log_term: 0, entries: Vec::new(), leader_commit: 0 });
    let bad = || LogEntry { index: 1, term: 1, entry_type: EntryType::Configuration, data: vec![9] };
    let stale = AppendEntriesReq { term: 1, leader_id: 1, prev_log_index: 0, prev_log_term: 0, entries: vec![bad()], leader_commit: 0 };
    assert!(c.can_handle_append_entries(&stale));
    assert_eq!(c.handle_append_entries(&stale), AppendEntriesResp { term: 2, success: false });
    let gap = AppendEntriesReq { term: 2, leader_id: 1, prev_log_index: 7, prev_log_term: 1, entries: vec![bad()], leader_commit: 0 };
    assert!(c.can_handle_append_entries(&gap));
    assert_eq!(c.handle_append_entries(&gap), AppendEntriesResp { term: 2, success: false });
    let misnumbered = AppendEntriesReq { term: 2, leader_id: 1, prev_log_index: 0, prev_log_term: 0, entries: vec![entry(2, 2, "x"), bad()], leader_commit: 0 };
    assert!(c.can_handle_append_entries(&misnumbered));
    assert_eq!(c.handle_append_entries(&misnumbered), AppendEntriesResp { term: 2, success: false });
    assert_eq!(c.log.entries().len(), 0);
}

#[test]
fn a_conflict_at_the_first_stored_index_replaces_it() {
    let mut c = Consensus::new(3, 9003, Vec::new(), "./meta".to_string());
    let first = AppendEntriesReq { term: 1, leader_id: 1, prev_log_index: 0, prev_log_term: 0, entries: vec![entry(1, 1, "a")], leader_commit: 0 };
    c.handle_append_entries(&first);
    let second = AppendEntriesReq { term: 2, leader_id: 2, prev_log_index: 0, prev_log_term: 0, entries: vec![entry(1, 2, "b")], leader_commit: 0 };
    assert_eq!(c.handle_append_entries(&second), AppendEntriesResp { term: 2, success: true });
    let indexes: Vec<(u64, u64)> = c.log.entries().iter().map(|e| (e.index, e.term)).collect();
    assert_eq!(indexes, vec![(1, 2)]);
}

#[test]
fn a_wrong_term_for_the_first_entry_is_refused() {
    let mut c = Consensus::new(1, 9001, Vec::new(), "./meta".to_string());
    let first = AppendEntriesReq { term: 1, leader_id: 2, prev_log_index: 0, prev_log_term: 0, entries: vec![entry(1, 1, "a")], leader_commit: 0 };
    assert_eq!(c.handle_append_entries(&first), AppendEntriesResp { term: 1, success: true });
    let wrong = AppendEntriesReq { term: 2, leader_id: 2, prev_log_index: 1, prev_log_term: 2, entries: Vec::new(), leader_commit: 1 };
    assert_eq!(c.handle_append_entries(&wrong), AppendEntriesResp { term: 2, success: false });
    assert_eq!((c.commit_index, c.log.entries().len(), c.current_term), (0, 1, 2));
}

#[test]
fn a_newer_request_term_does_not_make_an_older_log_up_to_date() {
    let mut c = Consensus::new(3, 9003, Vec::new(), "./meta".to_string());
    let req = AppendEntriesReq { term: 3, leader_id: 1, prev_log_index: 0, prev_log_term: 0, entries: vec![entry(1, 3, "a")], leader_commit: 0 };
    c.handle_append_entries(&req);
    let older_log = RequestVoteReq { term: 7, candidate_id: 2, last_log_index: 5, last_log_term: 2 };
    assert!(c.can_handle_request_vote(&older_log));
    assert_eq!(c.handle_request_vote(&older_log), RequestVoteResp { term: 7, vote_granted: false });
    assert_eq!((c.current_term, c.voted_for), (7, NONE_SERVER_ID));
    let newer_log = RequestVoteReq { term: 7, candidate_id: 2, last_log_index: 1, last_log_term: 3 };
    assert_eq!(c.handle_request_vote(&newer_log), RequestVoteResp { term: 7, vote_granted: true });
}

#[test]
fn a_leader_commits_only_entries_of_its_own_term() {
    let mut c = Consensus::new(1, 9001, vec![Peer::new(2, "b".to_string()), Peer::new(3, "c".to_string())], "./meta".to_string());
    let old = AppendEntriesReq { term: 1, leader_id: 2, prev_log_index: 0, prev_log_term: 0, entries: vec![entry(1, 1, "a")], leader_commit: 0 };
    c.handle_append_entries(&old);
    c.handle_election_timeout();
    assert!(c.handle_request_vote_response(2, &RequestVoteResp { term: 2, vote_granted: true }));
    assert_eq!((c.state, c.current_term, c.log.last_index(0)), (State::Leader, 2, 2));
    c.peer_manager.peer(2).unwrap().next_index = 2;
    let hb = c.append_entries_request(2, true);
    assert_eq!((hb.prev_log_index, hb.prev_log_term), (1, 1));
    let up_to_old = AppendEntriesReq { term: 2, leader_id: 1, prev_log_index: 0, prev_log_term: 0, entries: vec![entry(1, 1, "a")], leader_commit: 0 };
    let ok = AppendEntriesResp { term: 2, success: true };
    assert!(c.can_handle_append_entries_response(2, &up_to_old, &ok));
    assert!(c.handle_append_entries_response(2, &up_to_old, &ok));
    assert_eq!(c.peer_manager.peers()[0].match_index, 1);
    assert_eq!(c.commit_index, 0);
    let round = c.append_entries_request(2, false);
    assert_eq!(round.entries.iter().map(|e| (e.index, e.term)).collect::<Vec<(u64, u64)>>(), vec![(2, 2)]);
    assert!(c.handle_append_entries_response(2, &round, &ok));
    assert_eq!(c.commit_index, 2);
}

#[test]
fn a_vote_survives_other_messages_of_the_same_term() {
    let mut c = Consensus::new(3, 9003, vec![Peer::new(1, "a".to_string()), Peer::new(2, "b".to_string())], "./meta".to_string());
    let r1 = RequestVoteReq { term: 3, candidate_id: 2, last_log_index: 0, last_log_term: 0 };
    assert_eq!(c.handle_request_vote(&r1), RequestVoteResp { term: 3, vote_granted: true });
    let ae = AppendEntriesReq { term: 3, leader_id: 2, prev_log_index: 0, prev_log_term: 0, entries: vec![entry(1, 3, "a")], leader_commit: 0 };
    assert_eq!(c.handle_append_entries(&ae), AppendEntriesResp { term: 3, success: true });
    assert_eq!((c.current_term, c.voted_for), (3, 2));
    let other = RequestVoteReq { term: 3, candidate_id: 1, last_log_index: 5, last_log_term: 3 };
    assert_eq!(c.handle_request_vote(&other), RequestVoteResp { term: 3, vote_granted: false });
    assert_eq!(c.voted_for, 2);
    let newer = AppendEntriesReq { term: 4, leader_id: 1, prev_log_index: 1, prev_log_term: 3, entries: Vec::new(), leader_commit: 0 };
    assert_eq!(c.handle_append_entries(&newer), AppendEntriesResp { term: 4, success: true });
    assert_eq!((c.current_term, c.voted_for), (4, NONE_SERVER_ID));
}
