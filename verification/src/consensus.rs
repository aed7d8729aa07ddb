//! The consensus module of one raft server, as a state machine: each handler takes the
//! server's state and an event (a request, a reply, a timeout) to the next state, a reply,
//! and the actions that the surrounding program performs (timers, the application's state
//! machine, RPC rounds).
use vstd::prelude::*;
use crate::config;
use crate::config::{Configuration, ConfigurationState, ConfigurationView};
use crate::log;
use crate::log::{Log, LogView};
use crate::peer;
use crate::peer::{Peer, PeerManager, PeerView};
use crate::proto;
use crate::proto::{EntryType, LogEntry, LogEntryView};

verus! {

/// The role of a server.
#[derive(Debug, PartialEq, Eq, Clone, Copy, Structural)]
pub enum State {
    Follower,
    Candidate,
    Leader,
}

/// Work that a handler leaves to the surrounding program, in the order it arose.
#[derive(Debug)]
pub enum Action {
    /// Restart the election timer with a fresh random timeout.
    ResetElectionTimer,
    /// Hand committed data to the application's state machine.
    ApplyData(Vec<u8>),
    /// Run a round of AppendEntries to every peer (`true`: a heartbeat round, which sends
    /// the entries each peer lacks).
    ReplicateToPeers(bool),
    /// Run a round of RequestVote to every peer.
    RequestVotes,
}

pub enum ActionView {
    ResetElectionTimer,
    ApplyData(Seq<u8>),
    ReplicateToPeers(bool),
    RequestVotes,
}

impl View for Action {
    type V = ActionView;

    open spec fn view(&self) -> ActionView {
        match self {
            Action::ResetElectionTimer => ActionView::ResetElectionTimer,
            Action::ApplyData(d) => ActionView::ApplyData(d@),
            Action::ReplicateToPeers(h) => ActionView::ReplicateToPeers(*h),
            Action::RequestVotes => ActionView::RequestVotes,
        }
    }
}

pub open spec fn actions_view(a: Seq<Action>) -> Seq<ActionView> {
    a.map_values(|x: Action| x@)
}

/// Why a request to replicate data was refused.
#[derive(Debug, PartialEq, Eq, Clone, Copy, Structural)]
pub enum ReplicateError {
    NotLeader,
}

#[derive(Debug)]
pub struct Consensus {
    pub server_id: u64,
    pub server_addr: String,
    pub current_term: u64,
    pub state: State,
    pub voted_for: u64,
    pub commit_index: u64,
    pub last_applied: u64,
    pub leader_id: u64,
    pub peer_manager: PeerManager,
    pub log: Log,
    pub configuration_state: ConfigurationState,
    pub actions: Vec<Action>,
}

/// Mathematical value of the state of a server.
pub struct ConsensusView {
    pub server_id: u64,
    pub server_addr: Seq<char>,
    pub current_term: u64,
    pub state: State,
    pub voted_for: u64,
    pub commit_index: u64,
    pub last_applied: u64,
    pub leader_id: u64,
    pub peers: Seq<PeerView>,
    pub log: LogView,
    pub configuration_state: ConfigurationState,
    pub actions: Seq<ActionView>,
}

impl View for Consensus {
    type V = ConsensusView;

    open spec fn view(&self) -> ConsensusView {
        ConsensusView {
            server_id: self.server_id,
            server_addr: self.server_addr@,
            current_term: self.current_term,
            state: self.state,
            voted_for: self.voted_for,
            commit_index: self.commit_index,
            last_applied: self.last_applied,
            leader_id: self.leader_id,
            peers: self.peer_manager@,
            log: self.log@,
            configuration_state: self.configuration_state,
            actions: actions_view(self.actions@),
        }
    }
}

/// Every configuration entry of the log holds a configuration that can be decoded.
pub open spec fn configurations_decode(log: LogView) -> bool {
    forall|i: int|
        0 <= i < log.entries.len() && (#[trigger] log.entries[i]).entry_type == EntryType::Configuration
            ==> config::decoded_configuration(log.entries[i].data) is Some
}

pub proof fn lemma_configurations_decode_last(log: LogView)
    requires
        configurations_decode(log),
    ensures
        log.last_configuration_decodes(),
{
    log::lemma_last_configuration_position(log.entries);
}

/// Whether a log read back from disk can be the log of a server: it starts at 1 or later,
/// no entry carries an index beyond its position, and every configuration entry decodes.
pub fn log_is_usable(log: &Log) -> (b: bool)
    ensures
        b == (log@.start_index >= 1 && log@.indexes_bounded() && configurations_decode(log@)),
{
    let start = log.start_index();
    if start < 1 {
        return false;
    }
    let entries = log.entries();
    let mut i: usize = 0;
    while i < entries.len()
        invariant
            i <= entries.len(),
            start == log@.start_index,
            proto::entries_view(entries@) == log@.entries,
            forall|j: int| 0 <= j < i ==> (#[trigger] log@.entries[j]).index <= log@.start_index + j,
            forall|j: int|
                0 <= j < i && (#[trigger] log@.entries[j]).entry_type == EntryType::Configuration
                    ==> config::decoded_configuration(log@.entries[j].data) is Some,
        decreases entries.len() - i,
    {
        let e = &entries[i];
        assert(log@.entries[i as int] == e@);
        if e.index > start && e.index - start > i as u64 {
            assert(!log@.indexes_bounded());
            return false;
        }
        if e.entry_type() == EntryType::Configuration {
            if Configuration::try_from_data(&e.data).is_none() {
                assert(!configurations_decode(log@));
                return false;
            }
        }
        i = i + 1;
    }
    true
}

/// A peer that nothing is known of yet.
pub open spec fn fresh_peer(server: (u64, Seq<char>)) -> PeerView {
    PeerView {
        server_id: server.0,
        server_addr: server.1,
        next_index: 1,
        match_index: 0,
        vote_granted: false,
        configuration_state: ConfigurationState { in_new: true, in_old: false },
    }
}

pub open spec fn knows_peer(peers: Seq<PeerView>, server_id: u64) -> bool {
    exists|i: int| 0 <= i < peers.len() && peers[i].server_id == server_id
}

/// The peers that a configuration adds: its new servers that are neither known nor the
/// server itself, in order.
pub open spec fn added_peers(peers: Seq<PeerView>, self_id: u64, servers: Seq<(u64, Seq<char>)>) -> Seq<PeerView>
    decreases servers.len(),
{
    if servers.len() == 0 {
        Seq::empty()
    } else {
        added_peers(peers, self_id, servers.drop_last()) + if !knows_peer(peers, servers.last().0)
            && servers.last().0 != self_id {
            seq![fresh_peer(servers.last())]
        } else {
            Seq::empty()
        }
    }
}


/// The follower's treatment of the entries of an AppendEntries request, one at a time:
/// entries before the log's start are skipped, entries it already holds in the same term
/// are skipped, a conflicting entry drops the log from its index on, and the other entries
/// are collected to be appended.  `index` is the log index of the entry before `es[0]`;
/// the flag is false when an entry does not carry the index that follows.
pub open spec fn merge_entries(
    log: LogView,
    acc: Seq<LogEntryView>,
    es: Seq<LogEntryView>,
    index: int,
) -> (LogView, Seq<LogEntryView>, bool)
    decreases es.len(),
{
    if es.len() == 0 {
        (log, acc, true)
    } else {
        let idx = index + 1;
        let e = es[0];
        if e.index != idx {
            (log, acc, false)
        } else if idx < log.start_index {
            merge_entries(log, acc, es.drop_first(), idx)
        } else if log.last_index(0) >= idx {
            if log.entry_at(idx as u64).unwrap().term == e.term {
                merge_entries(log, acc, es.drop_first(), idx)
            } else {
                merge_entries(log.truncated_suffix((idx - 1) as u64), acc.push(e), es.drop_first(), idx)
            }
        } else {
            merge_entries(log, acc.push(e), es.drop_first(), idx)
        }
    }
}

/// The log with only its first `n` entries.
pub open spec fn log_prefix(log: LogView, n: int) -> LogView {
    LogView { entries: log.entries.take(n), ..log }
}

/// The configuration entries among `es`, in order.
pub open spec fn configuration_entries(es: Seq<LogEntryView>) -> Seq<LogEntryView>
    decreases es.len(),
{
    if es.len() == 0 {
        Seq::empty()
    } else {
        configuration_entries(es.drop_last()) + if es.last().entry_type == EntryType::Configuration {
            seq![es.last()]
        } else {
            Seq::empty()
        }
    }
}

/// A peer is known exactly when the search for its first position finds one, and that
/// position lies among the peers.
pub proof fn lemma_first_index_known(peers: Seq<PeerView>, server_id: u64)
    ensures
        (0 <= peer::first_peer_index(peers, server_id)) == knows_peer(peers, server_id),
        0 <= peer::first_peer_index(peers, server_id) ==> peer::first_peer_index(peers, server_id) < peers.len(),
{
    peer::lemma_first_peer_index_exists(peers, server_id);
}

/// Whether committing can proceed does not depend on the peers.
pub proof fn lemma_can_commit_to_ignores_peers(s: ConsensusView, s1: ConsensusView, target: u64)
    requires
        s1.log == s.log,
        s1.commit_index == s.commit_index,
        s1.state == s.state,
        s1.current_term == s.current_term,
    ensures
        s1.can_commit_to(target) == s.can_commit_to(target),
{
}

/// Appending Cnew keeps the log's entries and may add one at the end.
pub proof fn lemma_append_next_configuration_log(s: ConsensusView)
    ensures
        s.append_next_configuration().log.start_index == s.log.start_index,
        s.append_next_configuration().log.entries.len() >= s.log.entries.len(),
        s.append_next_configuration().log.entries.take(s.log.entries.len() as int) == s.log.entries,
{
    let r = s.append_next_configuration();
    assert(r.log.entries.take(s.log.entries.len() as int) =~= s.log.entries);
}

/// The entry at `i` holds a joint configuration.
pub open spec fn joint_at(log: LogView, i: int) -> bool {
    &&& i >= 0
    &&& log.entry_at(i as u64) is Some
    &&& log.entry_at(i as u64).unwrap().entry_type == EntryType::Configuration
    &&& config::decoded_configuration(log.entry_at(i as u64).unwrap().data) is Some
    &&& config::decoded_configuration(log.entry_at(i as u64).unwrap().data).unwrap().is_joint()
}

/// Appending at the end leaves the entries at the indexes up to the old last one.
pub proof fn lemma_append_keeps_entries(log: LogView, log2: LogView, i: u64)
    requires
        log.start_index >= 1,
        log.indexes_bounded(),
        log2.start_index == log.start_index,
        log2.entries.len() >= log.entries.len(),
        log2.entries.take(log.entries.len() as int) == log.entries,
        i <= log.last_index(0),
    ensures
        log2.entry_at(i) == log.entry_at(i),
{
    if i >= log.start_index {
        lemma_entry_exists(log, i);
        assert(log2.entries[i - log.start_index] == log.entries.take(log.entries.len() as int)[i - log.start_index]);
    }
}

pub proof fn lemma_entry_exists(log: LogView, k: u64)
    requires
        log.start_index >= 1,
        log.indexes_bounded(),
        log.start_index <= k <= log.last_index(0),
    ensures
        log.entry_at(k) is Some,
{
    if log.entries.len() > 0 {
        assert(log.entries[log.entries.len() - 1].index <= log.start_index + log.entries.len() - 1);
    }
}

pub proof fn lemma_configuration_entries_decode(es: Seq<LogEntryView>)
    requires
        forall|i: int|
            0 <= i < es.len() && (#[trigger] es[i]).entry_type == EntryType::Configuration
                ==> config::decoded_configuration(es[i].data) is Some,
    ensures
        forall|i: int|
            0 <= i < configuration_entries(es).len() ==> (#[trigger] configuration_entries(es)[i]).entry_type
                == EntryType::Configuration && config::decoded_configuration(
                configuration_entries(es)[i].data,
            ) is Some,
    decreases es.len(),
{
    if es.len() > 0 {
        let p = es.drop_last();
        assert forall|i: int|
            0 <= i < p.len() && (#[trigger] p[i]).entry_type == EntryType::Configuration
                implies config::decoded_configuration(p[i].data) is Some by {
            assert(p[i] == es[i]);
        }
        lemma_configuration_entries_decode(p);
        assert(es.last() == es[es.len() - 1]);
    }
}

impl ConsensusView {
    pub open spec fn wf(self) -> bool {
        &&& self.log.start_index >= 1
        &&& self.log.indexes_bounded()
        &&& configurations_decode(self.log)
    }

    pub open spec fn with_action(self, a: ActionView) -> ConsensusView {
        ConsensusView { actions: self.actions.push(a), ..self }
    }

    /// Falls back to follower on seeing `new_term`; a larger term is adopted, with no vote
    /// and no known leader; the election timer restarts.
    pub open spec fn step_down(self, new_term: u64) -> ConsensusView {
        if new_term < self.current_term {
            self
        } else if new_term > self.current_term {
            ConsensusView {
                state: State::Follower,
                current_term: new_term,
                voted_for: config::NONE_SERVER_ID,
                leader_id: config::NONE_SERVER_ID,
                ..self
            }.with_action(ActionView::ResetElectionTimer)
        } else {
            ConsensusView {
                state: State::Follower,
                leader_id: config::NONE_SERVER_ID,
                ..self
            }.with_action(ActionView::ResetElectionTimer)
        }
    }

    /// Takes a configuration into use: its new servers that are not yet known become peers,
    /// and every server learns on which side of the configuration it stands.
    pub open spec fn configure(self, c: ConfigurationView) -> ConsensusView {
        let all = self.peers + added_peers(self.peers, self.server_id, c.new_servers);
        ConsensusView {
            peers: all.map_values(
                |p: PeerView| PeerView { configuration_state: c.state_of(p.server_id), ..p },
            ),
            configuration_state: c.state_of(self.server_id),
            ..self
        }
    }

    /// The log with one more entry in the current term.
    pub open spec fn appended(self, entry_type: EntryType, data: Seq<u8>) -> ConsensusView {
        ConsensusView {
            log: LogView {
                entries: self.log.entries.push(
                    LogEntryView {
                        index: (self.log.last_index(0) + 1) as u64,
                        term: self.current_term,
                        entry_type,
                        data,
                    },
                ),
                ..self.log
            },
            ..self
        }
    }

    /// A leader appends the entry, takes a configuration into use at once, and starts a
    /// replication round; any other server refuses.
    pub open spec fn replicate(self, entry_type: EntryType, data: Seq<u8>) -> (ConsensusView, Result<(), ReplicateError>) {
        if self.state != State::Leader {
            (self, Err(ReplicateError::NotLeader))
        } else {
            let s1 = self.appended(entry_type, data);
            let s2 = if entry_type == EntryType::Configuration {
                s1.configure(config::decoded_configuration(data).unwrap())
            } else {
                s1
            };
            (s2.with_action(ActionView::ReplicateToPeers(false)), Ok(()))
        }
    }

    pub open spec fn can_replicate(self, entry_type: EntryType, data: Seq<u8>) -> bool {
        self.state == State::Leader ==> {
            &&& self.log.has_last_index(0)
            &&& self.log.last_index(0) < u64::MAX
            &&& entry_type == EntryType::Configuration ==> config::decoded_configuration(data) is Some
        }
    }

    /// A candidate that won its election becomes leader and appends a no-op entry.
    pub open spec fn become_leader(self) -> ConsensusView {
        if self.state != State::Candidate {
            self
        } else {
            ConsensusView { state: State::Leader, leader_id: self.server_id, ..self }.replicate(
                EntryType::Noop,
                seq![78u8, 111u8, 110u8, 101u8],
            ).0
        }
    }



    /// Takes the configurations of the given configuration entries into use, in order.
    pub open spec fn configure_all(self, cfgs: Seq<LogEntryView>) -> ConsensusView
        decreases cfgs.len(),
    {
        if cfgs.len() == 0 {
            self
        } else {
            self.configure_all(cfgs.drop_last()).configure(
                config::decoded_configuration(cfgs.last().data).unwrap(),
            )
        }
    }

    /// The follower's reply to an AppendEntries request, and its state after it.  A request
    /// from an older term is refused; otherwise the server follows the sender, refuses when
    /// its log lacks the entry before the new ones or holds it in another term, merges the
    /// entries into its log (see `merge_entries`), takes new configurations into use and
    /// commits up to the leader's commit index.  Every reply carries the server's term after
    /// the request.
    pub open spec fn handle_append_entries(self, req: proto::AppendEntriesReqView) -> (ConsensusView, proto::AppendEntriesResp) {
        if req.term < self.current_term {
            (self, proto::AppendEntriesResp { term: self.current_term, success: false })
        } else {
            let s1 = self.step_down(req.term);
            let s2 = if s1.leader_id == config::NONE_SERVER_ID {
                ConsensusView { leader_id: req.leader_id, ..s1 }
            } else {
                s1
            };
            let refuse = proto::AppendEntriesResp { term: s2.current_term, success: false };
            if req.prev_log_index > s2.log.last_index(0) {
                (s2, refuse)
            } else if req.prev_log_index >= s2.log.start_index && req.prev_log_term != s2.log.entry_at(
                req.prev_log_index,
            ).unwrap().term {
                (s2, refuse)
            } else if req.entries.len() == 0 {
                let s3 = s2.follower_advance_commit_index(req.leader_commit);
                (s3, proto::AppendEntriesResp { term: s3.current_term, success: true })
            } else {
                let merged = merge_entries(s2.log, Seq::empty(), req.entries, req.prev_log_index as int);
                if !merged.2 {
                    (ConsensusView { log: merged.0, ..s2 }, refuse)
                } else {
                    let s4 = ConsensusView {
                        log: LogView { entries: merged.0.entries + merged.1, ..merged.0 },
                        ..s2
                    };
                    let s5 = s4.configure_all(configuration_entries(merged.1));
                    let s6 = s5.follower_advance_commit_index(req.leader_commit);
                    (s6, proto::AppendEntriesResp { term: s6.current_term, success: true })
                }
            }
        }
    }

    /// The entries of an AppendEntries request that the server appends to its log: none
    /// when it refuses the request.
    pub open spec fn appended_by(self, req: proto::AppendEntriesReqView) -> Seq<LogEntryView> {
        if req.term < self.current_term || req.prev_log_index > self.log.last_index(0) || (
        req.prev_log_index >= self.log.start_index && req.prev_log_term != self.log.entry_at(
            req.prev_log_index,
        ).unwrap().term) || req.entries.len() == 0 {
            Seq::empty()
        } else {
            let merged = merge_entries(self.log, Seq::empty(), req.entries, req.prev_log_index as int);
            if merged.2 {
                merged.1
            } else {
                Seq::empty()
            }
        }
    }

    /// What handling an AppendEntries request needs: every configuration entry that it
    /// appends can be decoded.
    pub open spec fn can_handle_append_entries(self, req: proto::AppendEntriesReqView) -> bool {
        forall|i: int|
            0 <= i < self.appended_by(req).len() && (#[trigger] self.appended_by(req)[i]).entry_type
                == EntryType::Configuration ==> config::decoded_configuration(self.appended_by(req)[i].data) is Some
    }


    /// The candidate's log is at least as up to date as this server's: its last term is
    /// newer, or the same with a last index at least as large.
    pub open spec fn log_is_ok_for(self, req: proto::RequestVoteReq) -> bool {
        req.last_log_term > self.log.last_term(0) || (req.last_log_term == self.log.last_term(0)
            && req.last_log_index >= self.log.last_index(0))
    }

    /// The reply to a RequestVote request and the state after it.  A request from an older
    /// term is refused; a newer term makes the server step down first; the vote is granted
    /// when the candidate's log is up to date and the server has voted for nobody else in
    /// this term.  Every reply carries the server's term after the request.
    pub open spec fn handle_request_vote(self, req: proto::RequestVoteReq) -> (ConsensusView, proto::RequestVoteResp) {
        if req.term < self.current_term {
            (self, proto::RequestVoteResp { term: self.current_term, vote_granted: false })
        } else {
            let s1 = if req.term > self.current_term {
                self.step_down(req.term)
            } else {
                self
            };
            let refuse = proto::RequestVoteResp { term: s1.current_term, vote_granted: false };
            if !s1.log_is_ok_for(req) {
                (s1, refuse)
            } else if s1.voted_for != config::NONE_SERVER_ID && s1.voted_for != req.candidate_id {
                (s1, refuse)
            } else {
                let s2 = ConsensusView { voted_for: req.candidate_id, ..s1 }.with_action(
                    ActionView::ResetElectionTimer,
                );
                (s2, proto::RequestVoteResp { term: s2.current_term, vote_granted: true })
            }
        }
    }

    /// Only a follower grants a vote: a leader or candidate that would grant one stops.
    pub open spec fn can_handle_request_vote(self, req: proto::RequestVoteReq) -> bool {
        let s1 = if req.term > self.current_term {
            self.step_down(req.term)
        } else {
            self
        };
        &&& self.log.has_last_index(0)
        &&& (req.term >= self.current_term && s1.log_is_ok_for(req) && (s1.voted_for
            == config::NONE_SERVER_ID || s1.voted_for == req.candidate_id)) ==> s1.state == State::Follower
    }

    /// Forgets the votes of the last election and starts a round of RequestVote.
    pub open spec fn start_request_vote(self) -> ConsensusView {
        ConsensusView {
            peers: self.peers.map_values(|p: PeerView| PeerView { vote_granted: false, ..p }),
            ..self
        }.with_action(ActionView::RequestVotes)
    }

    /// On an election timeout a follower or candidate starts an election in the next term,
    /// voting for itself.
    pub open spec fn handle_election_timeout(self) -> ConsensusView {
        if self.state == State::Leader {
            self
        } else {
            ConsensusView {
                state: State::Candidate,
                current_term: (self.current_term + 1) as u64,
                voted_for: self.server_id,
                ..self
            }.with_action(ActionView::ResetElectionTimer).start_request_vote()
        }
    }

    pub open spec fn wins_election(self) -> bool {
        PeerManager::spec_quorum_vote_granted(self.peers, self.configuration_state)
    }

    /// The candidate takes a peer's reply to its RequestVote: a newer term ends the round,
    /// the server becoming a follower in that term with no vote; a granted vote is
    /// recorded; a won election ends the round as leader.  The flag tells whether the round
    /// is over.
    pub open spec fn handle_request_vote_response(self, peer_server_id: u64, resp: proto::RequestVoteResp) -> (ConsensusView, bool) {
        if resp.term > self.current_term {
            (
                ConsensusView {
                    state: State::Follower,
                    current_term: resp.term,
                    voted_for: config::NONE_SERVER_ID,
                    ..self
                },
                true,
            )
        } else {
            let i = peer::first_peer_index(self.peers, peer_server_id);
            let s1 = if resp.vote_granted {
                ConsensusView {
                    peers: self.peers.update(i, PeerView { vote_granted: true, ..self.peers[i] }),
                    ..self
                }
            } else {
                self
            };
            if s1.wins_election() {
                (s1.become_leader(), true)
            } else {
                (s1, false)
            }
        }
    }

    /// The end of a round of RequestVote that nothing ended earlier.
    pub open spec fn finish_request_vote(self) -> ConsensusView {
        if self.wins_election() {
            self.become_leader()
        } else {
            self
        }
    }

    /// A leader's replication round: without peers it commits at once.
    pub open spec fn append_entries(self) -> (ConsensusView, bool) {
        if self.state != State::Leader {
            (self, false)
        } else if self.peers.len() == 0 {
            (self.leader_advance_commit_index(), true)
        } else {
            (self, true)
        }
    }

    /// The AppendEntries request for a peer: the entries from its next index on (none in a
    /// heartbeat round), after the entry just before them.
    pub open spec fn append_entries_request(self, peer_server_id: u64, heartbeat: bool) -> proto::AppendEntriesReqView {
        let p = self.peers[peer::first_peer_index(self.peers, peer_server_id)];
        proto::AppendEntriesReqView {
            term: self.current_term,
            leader_id: self.server_id,
            prev_log_index: (p.next_index - 1) as u64,
            prev_log_term: self.log.entry_at((p.next_index - 1) as u64).unwrap().term,
            entries: if heartbeat {
                Seq::empty()
            } else {
                self.log.entries_from(p.next_index)
            },
            leader_commit: self.commit_index,
        }
    }

    pub open spec fn can_build_append_entries_request(self, peer_server_id: u64) -> bool {
        let i = peer::first_peer_index(self.peers, peer_server_id);
        &&& 0 <= i < self.peers.len()
        &&& self.peers[i].next_index >= 1
        &&& self.log.entry_at((self.peers[i].next_index - 1) as u64) is Some
    }

    /// The leader takes a peer's reply to its AppendEntries: a newer term makes it step
    /// down; on success the peer has matched up to the last entry sent and the leader
    /// commits what is now held by a quorum; on a refusal the peer's next index backs off
    /// by one.  The flag tells whether the peer accepted.
    pub open spec fn handle_append_entries_response(
        self,
        peer_server_id: u64,
        req: proto::AppendEntriesReqView,
        resp: proto::AppendEntriesResp,
    ) -> (ConsensusView, bool) {
        let i = peer::first_peer_index(self.peers, peer_server_id);
        if resp.term > self.current_term {
            (self.step_down(resp.term), false)
        } else if resp.success {
            let m = (req.prev_log_index + req.entries.len()) as u64;
            let s1 = ConsensusView {
                peers: self.peers.update(
                    i,
                    PeerView { match_index: m, next_index: (m + 1) as u64, ..self.peers[i] },
                ),
                ..self
            };
            (s1.leader_advance_commit_index(), true)
        } else if self.peers[i].next_index > 1 {
            (
                ConsensusView {
                    peers: self.peers.update(
                        i,
                        PeerView { next_index: (self.peers[i].next_index - 1) as u64, ..self.peers[i] },
                    ),
                    ..self
                },
                false,
            )
        } else {
            (self, false)
        }
    }

    pub open spec fn can_handle_append_entries_response(
        self,
        peer_server_id: u64,
        req: proto::AppendEntriesReqView,
        resp: proto::AppendEntriesResp,
    ) -> bool {
        let i = peer::first_peer_index(self.peers, peer_server_id);
        let m = (req.prev_log_index + req.entries.len()) as u64;
        &&& 0 <= i < self.peers.len()
        &&& (resp.term <= self.current_term && resp.success) ==> {
            &&& req.prev_log_index + req.entries.len() < u64::MAX
            &&& (ConsensusView {
                peers: self.peers.update(
                    i,
                    PeerView { match_index: m, next_index: (m + 1) as u64, ..self.peers[i] },
                ),
                ..self
            }).can_advance_leader_commit()
        }
    }

    /// The server that this one takes for leader: itself when it leads, else the first
    /// peer with the leader's id.
    pub open spec fn known_leader(self) -> Option<(u64, Seq<char>)> {
        if self.state == State::Leader {
            Some((self.server_id, self.server_addr))
        } else if exists|i: int| 0 <= i < self.peers.len() && self.peers[i].server_id == self.leader_id {
            let p = self.peers[peer::first_peer_index(self.peers, self.leader_id)];
            Some((p.server_id, p.server_addr))
        } else {
            None
        }
    }

    /// All servers that this one knows: its peers, then itself.
    pub open spec fn known_servers(self) -> Seq<(u64, Seq<char>)> {
        self.peers.map_values(|p: PeerView| (p.server_id, p.server_addr)).push(
            (self.server_id, self.server_addr),
        )
    }

    /// A request to move the cluster to `new_servers`: refused when it names no server or
    /// while a joint configuration is the last one in the log; otherwise the leader
    /// replicates the joint configuration Cold,new.
    pub open spec fn handle_set_configuration(self, new_servers: Seq<(u64, Seq<char>)>) -> (ConsensusView, bool) {
        if new_servers.len() == 0 {
            (self, false)
        } else if self.log.last_configuration() is Some && self.log.last_configuration().unwrap().is_joint() {
            (self, false)
        } else {
            let r = self.replicate(
                EntryType::Configuration,
                config::encoded_configuration(self.joint_configuration(new_servers)),
            );
            (r.0, r.1 is Ok)
        }
    }

    /// The joint configuration Cold,new that moves the cluster to `new_servers`: the new
    /// servers, and as old ones the peers followed by the server itself.
    pub open spec fn joint_configuration(self, new_servers: Seq<(u64, Seq<char>)>) -> ConfigurationView {
        ConfigurationView {
            new_servers,
            old_servers: self.peers.map_values(|p: PeerView| (p.server_id, p.server_addr)).push(
                (self.server_id, self.server_addr),
            ),
        }
    }

    /// The configuration Cnew that follows the last (joint) configuration of the log.
    pub open spec fn next_configuration(self) -> ConfigurationView {
        ConfigurationView {
            old_servers: Seq::empty(),
            new_servers: self.log.last_configuration().unwrap().new_servers,
        }
    }

    /// Appending Cnew: the last configuration of the log must be a joint one.
    pub open spec fn can_append_next_configuration(self) -> bool {
        &&& self.log.last_configuration_decodes()
        &&& self.log.last_configuration() is Some
        &&& self.log.last_configuration().unwrap().is_joint()
        &&& self.log.has_last_index(0)
        &&& self.log.last_index(0) < u64::MAX
    }

    pub open spec fn append_next_configuration(self) -> ConsensusView {
        self.replicate(
            EntryType::Configuration,
            config::encoded_configuration(self.next_configuration()),
        ).0
    }

    /// The follower commits the entries from `index` up to `leader_commit`, as far as its
    /// log reaches, handing their data to the state machine.
    pub open spec fn follower_commit_from(self, index: int, leader_commit: u64) -> ConsensusView
        decreases leader_commit - index + 1,
    {
        if index > leader_commit || index < 0 {
            self
        } else {
            match self.log.entry_at(index as u64) {
                None => self,
                Some(e) => {
                    let s1 = if e.entry_type == EntryType::Data {
                        self.with_action(ActionView::ApplyData(e.data))
                    } else {
                        self
                    };
                    ConsensusView { commit_index: (s1.commit_index + 1) as u64, ..s1 }.follower_commit_from(
                        index + 1,
                        leader_commit,
                    )
                },
            }
        }
    }

    pub open spec fn follower_advance_commit_index(self, leader_commit: u64) -> ConsensusView {
        if self.commit_index < leader_commit {
            self.follower_commit_from(self.commit_index + 1, leader_commit)
        } else {
            self
        }
    }

    /// The index that the leader holds committed by joint consensus.
    pub open spec fn commit_target(self) -> u64 {
        PeerManager::spec_quorum_match_index(self.peers, self.configuration_state, self.log.last_index(0))
    }

    /// The state after committing the entry at `index`, when the leader commits: data go
    /// to the state machine, and a joint configuration, once committed, is followed by Cnew.
    pub open spec fn leader_commit_one(self, e: LogEntryView) -> ConsensusView {
        let s1 = ConsensusView { commit_index: (self.commit_index + 1) as u64, ..self };
        if e.entry_type == EntryType::Data {
            s1.with_action(ActionView::ApplyData(e.data))
        } else if e.entry_type == EntryType::Configuration && config::decoded_configuration(
            e.data,
        ).unwrap().is_joint() {
            s1.append_next_configuration()
        } else {
            s1
        }
    }

    pub open spec fn leader_commit_from(self, index: int, target: u64) -> ConsensusView
        decreases target - index + 1,
    {
        if index > target || index < 0 {
            self
        } else {
            match self.log.entry_at(index as u64) {
                None => self,
                Some(e) => self.leader_commit_one(e).leader_commit_from(index + 1, target),
            }
        }
    }

    /// Committing up to `target` finds every entry, and appends Cnew at most once, with a
    /// joint configuration last in the log then: at most one committed entry holds a joint
    /// configuration, and if one does, the log's last configuration is joint.
    pub open spec fn leader_commit_ok(self, target: u64) -> bool {
        &&& target < u64::MAX
        &&& target <= self.log.last_index(0)
        &&& forall|i: int, j: int|
            self.commit_index < i <= target && self.commit_index < j <= target && joint_at(self.log, i)
                && joint_at(self.log, j) ==> i == j
        &&& (exists|i: int| self.commit_index < i <= target && joint_at(self.log, i))
            ==> self.can_append_next_configuration()
    }

    /// The leader commits up to its commit target only when that target is past its commit
    /// index and the entry there is of its own term.
    pub open spec fn commits_to_target(self) -> bool {
        &&& self.commit_target() > self.commit_index
        &&& self.log.entry_at(self.commit_target()) is Some
        &&& self.log.entry_at(self.commit_target()).unwrap().term == self.current_term
    }

    pub open spec fn leader_advance_commit_index(self) -> ConsensusView {
        if self.commits_to_target() {
            self.leader_commit_from(self.commit_index + 1, self.commit_target())
        } else {
            self
        }
    }

    /// Committing up to `target`, where the leader would commit there, can proceed
    /// without fault.
    pub open spec fn can_commit_to(self, target: u64) -> bool {
        (target > self.commit_index && self.log.entry_at(target) is Some && self.log.entry_at(target).unwrap().term
            == self.current_term) ==> self.leader_commit_ok(target)
    }

    /// The leader can advance its commit index without fault.
    pub open spec fn can_advance_leader_commit(self) -> bool {
        &&& self.log.has_last_index(0)
        &&& self.can_commit_to(self.commit_target())
    }
}

impl Consensus {
    /// The state of a server that has just started: a follower in term 0 with an empty log
    /// that starts at index 1.
    pub fn new(server_id: u64, port: u32, peers: Vec<Peer>, metadata_dir: String) -> (c: Consensus)
        ensures
            c@ == (ConsensusView {
                server_id,
                server_addr: "[::1]:"@ + crate::util::decimal(port as nat),
                current_term: 0,
                state: State::Follower,
                voted_for: config::NONE_SERVER_ID,
                commit_index: 0,
                last_applied: 0,
                leader_id: config::NONE_SERVER_ID,
                peers: peer::peers_view(peers@),
                log: LogView { entries: Seq::empty(), start_index: 1, metadata_dir: metadata_dir@ },
                configuration_state: ConfigurationState { in_new: true, in_old: false },
                actions: Seq::empty(),
            }),
            c@.wf(),
    {
        let mut peer_manager = PeerManager::new();
        peer_manager.add_peers(peers);
        let c = Consensus {
            server_id,
            server_addr: crate::util::local_address(port),
            current_term: 0,
            state: State::Follower,
            voted_for: config::NONE_SERVER_ID,
            commit_index: 0,
            last_applied: 0,
            leader_id: config::NONE_SERVER_ID,
            peer_manager,
            log: Log::new(1, metadata_dir),
            configuration_state: ConfigurationState::new(),
            actions: Vec::new(),
        };
        assert(c@.peers =~= peer::peers_view(peers@));
        assert(c@.actions =~= Seq::<ActionView>::empty());
        c
    }

    /// Hands the pending actions to the caller, oldest first, and forgets them.
    pub fn take_actions(&mut self) -> (actions: Vec<Action>)
        ensures
            actions_view(actions@) == old(self)@.actions,
            final(self)@ == (ConsensusView { actions: Seq::empty(), ..old(self)@ }),
    {
        let mut actions: Vec<Action> = Vec::new();
        std::mem::swap(&mut actions, &mut self.actions);
        assert(self@.actions =~= Seq::<ActionView>::empty());
        actions
    }

    fn push_action(&mut self, a: Action)
        ensures
            final(self)@ == old(self)@.with_action(a@),
    {
        self.actions.push(a);
        assert(self@.actions =~= old(self)@.actions.push(a@));
    }


    /// The request of the application (or of the leader itself) to replicate data: a
    /// leader appends it and starts a replication round; another server refuses.
    pub fn replicate(&mut self, entry_type: EntryType, data: Vec<u8>) -> (r: Result<(), ReplicateError>)
        requires
            old(self)@.can_replicate(entry_type, data@),
        ensures
            (final(self)@, r) == old(self)@.replicate(entry_type, data@),
            old(self)@.wf() ==> final(self)@.wf(),
    {
        if self.state != State::Leader {
            return Err(ReplicateError::NotLeader);
        }
        let configuration = if entry_type == EntryType::Configuration {
            Some(Configuration::from_data(&data))
        } else {
            None
        };
        let ghost d = data@;
        let ghost base = self.log@.last_index(0);
        let mut entry_data: Vec<log::LogEntryData> = Vec::new();
        entry_data.push((entry_type, data));
        self.log.append_data(self.current_term, entry_data);
        assert(log::data_entries(base, old(self)@.current_term, entry_data@) =~= seq![
            LogEntryView { index: (base + 1) as u64, term: old(self)@.current_term, entry_type, data: d },
        ]);
        assert(self@.log.entries =~= old(self)@.log.entries.push(
            LogEntryView { index: (base + 1) as u64, term: old(self)@.current_term, entry_type, data: d },
        ));
        assert(self@.actions =~= old(self)@.actions);
        assert(self@.log =~= old(self)@.appended(entry_type, d).log);
        assert(self@ == old(self)@.appended(entry_type, d));
        proof {
            if old(self)@.wf() {
                assert(self@.log.indexes_bounded()) by {
                    assert forall|i: int| 0 <= i < self@.log.entries.len() implies (
                    #[trigger] self@.log.entries[i]).index <= self@.log.start_index + i by {
                        if i == self@.log.entries.len() - 1 && i > 0 {
                            assert(old(self)@.log.entries[i - 1].index <= self@.log.start_index + i - 1);
                        }
                    }
                }
                assert(configurations_decode(self@.log)) by {
                    assert forall|i: int|
                        0 <= i < self@.log.entries.len() && (#[trigger] self@.log.entries[i]).entry_type
                            == EntryType::Configuration implies config::decoded_configuration(
                        self@.log.entries[i].data,
                    ) is Some by {
                        if i < old(self)@.log.entries.len() {
                            assert(self@.log.entries[i] == old(self)@.log.entries[i]);
                        }
                    }
                }
            }
        }
        match configuration {
            Some(c) => {
                self.apply_configuration(c);
            },
            None => {},
        }
        self.push_action(Action::ReplicateToPeers(false));
        Ok(())
    }

    /// A candidate that won its election becomes leader and appends a no-op entry.
    fn become_leader(&mut self)
        requires
            old(self)@.log.has_last_index(0),
            old(self)@.log.last_index(0) < u64::MAX,
        ensures
            final(self)@ == old(self)@.become_leader(),
            old(self)@.wf() ==> final(self)@.wf(),
    {
        if self.state != State::Candidate {
            return;
        }
        self.state = State::Leader;
        self.leader_id = self.server_id;
        let _ = self.replicate(EntryType::Noop, config::none_data());
    }

    /// A follower commits up to the leader's commit index, as far as its log reaches.
    fn follower_advance_commit_index(&mut self, leader_commit_index: u64)
        ensures
            final(self)@ == old(self)@.follower_advance_commit_index(leader_commit_index),
            final(self)@.log == old(self)@.log,
    {
        if self.commit_index >= leader_commit_index {
            return;
        }
        let mut index: u64 = self.commit_index + 1;
        let mut go = true;
        while go && index <= leader_commit_index
            invariant
                1 <= index,
                go ==> index <= leader_commit_index + 1,
                go ==> self.commit_index == index - 1,
                go ==> self@.follower_commit_from(index as int, leader_commit_index)
                    == old(self)@.follower_advance_commit_index(leader_commit_index),
                !go ==> self@ == old(self)@.follower_advance_commit_index(leader_commit_index),
                self@.log == old(self)@.log,
            decreases leader_commit_index + 1 - index + if go { 1int } else { 0int },
        {
            match self.log.entry(index) {
                Some(entry) => {
                    if entry.entry_type() == EntryType::Data {
                        self.push_action(Action::ApplyData(entry.data));
                    }
                    self.commit_index = self.commit_index + 1;
                    if index == u64::MAX {
                        assert(self@.follower_commit_from(index as int + 1, leader_commit_index) == self@);
                        go = false;
                    } else {
                        index = index + 1;
                    }
                },
                None => {
                    go = false;
                },
            }
        }
    }

    /// The leader commits what joint consensus holds committed.
    fn leader_advance_commit_index(&mut self)
        requires
            old(self)@.can_advance_leader_commit(),
            old(self)@.wf(),
        ensures
            final(self)@ == old(self)@.leader_advance_commit_index(),
            final(self)@.wf(),
    {
        let new_commit_index = self.peer_manager.quorum_match_index(&self.configuration_state, self.log.last_index(0));
        if new_commit_index <= self.commit_index {
            return;
        }
        match self.log.entry(new_commit_index) {
            Some(e) => {
                if e.term != self.current_term {
                    return;
                }
            },
            None => {
                return;
            },
        }
        let mut index: u64 = self.commit_index + 1;
        while index <= new_commit_index
            invariant
                new_commit_index < u64::MAX,
                1 <= index <= new_commit_index + 1,
                self.commit_index == index - 1,
                self.log@.start_index >= 1,
                self.log@.start_index == old(self).log@.start_index,
                self@.leader_commit_from(index as int, new_commit_index) == old(self)@.leader_advance_commit_index(),
                self@.wf(),
                new_commit_index <= self@.log.last_index(0),
                forall|i: int, j: int|
                    index <= i <= new_commit_index && index <= j <= new_commit_index && joint_at(self@.log, i)
                        && joint_at(self@.log, j) ==> i == j,
                (exists|i: int| index <= i <= new_commit_index && joint_at(self@.log, i))
                    ==> self@.can_append_next_configuration(),
            decreases new_commit_index + 1 - index,
        {
            proof {
                if index >= self@.log.start_index {
                    lemma_entry_exists(self@.log, index);
                }
            }
            let ghost before = self@;
            let entry = match self.log.entry(index) {
                Some(e) => e,
                None => {
                    proof {
                        assert(false);
                    }
                    return;
                },
            };
            let entry_type = entry.entry_type();
            if entry_type == EntryType::Data {
                self.push_action(Action::ApplyData(entry.data));
                self.commit_index = self.commit_index + 1;
            } else if entry_type == EntryType::Configuration {
                self.commit_index = self.commit_index + 1;
                let configuration = Configuration::from_data(&entry.data);
                if configuration.old_servers.len() > 0 && configuration.new_servers.len() > 0 {
                    assert(joint_at(before.log, index as int));
                    let ghost mid = self@;
                    self.append_next_configuration();
                    proof {
                        lemma_append_next_configuration_log(mid);
                        assert forall|i: int| index < i <= new_commit_index implies !joint_at(self@.log, i) by {
                            lemma_append_keeps_entries(mid.log, self@.log, i as u64);
                            if joint_at(before.log, i) {
                                assert(i == index);
                            }
                        }
                    }
                } else {
                    assert(!joint_at(before.log, index as int));
                }
            } else {
                self.commit_index = self.commit_index + 1;
            }
            index = index + 1;
        }
    }

    /// Appends the configuration Cnew that follows the last, joint, configuration.
    fn append_next_configuration(&mut self) -> (ok: bool)
        requires
            old(self)@.can_append_next_configuration(),
        ensures
            final(self)@ == old(self)@.append_next_configuration(),
            ok == (old(self)@.state == State::Leader),
            old(self)@.wf() ==> final(self)@.wf(),
    {
        let old_new_configuration = match self.log.last_configuration() {
            Some(c) => c,
            None => {
                proof {
                    assert(false);
                }
                return false;
            },
        };
        let new_configuration = old_new_configuration.gen_new_configuration();
        assert(new_configuration@.old_servers =~= Seq::<(u64, Seq<char>)>::empty());
        assert(new_configuration@ == self@.next_configuration());
        let data = new_configuration.to_data();
        match self.replicate(EntryType::Configuration, data) {
            Ok(_) => true,
            Err(_) => false,
        }
    }


    /// Handles an AppendEntries request of a leader (see `ConsensusView::handle_append_entries`).
    pub fn handle_append_entries(&mut self, request: &proto::AppendEntriesReq) -> (resp: proto::AppendEntriesResp)
        requires
            old(self)@.wf(),
            old(self)@.can_handle_append_entries(request@),
        ensures
            (final(self)@, resp) == old(self)@.handle_append_entries(request@),
            final(self)@.wf(),
    {
        if request.term < self.current_term {
            return proto::AppendEntriesResp { term: self.current_term, success: false };
        }
        self.step_down(request.term);
        if self.leader_id == config::NONE_SERVER_ID {
            self.leader_id = request.leader_id;
        }
        let refuse_resp = proto::AppendEntriesResp { term: self.current_term, success: false };
        let ghost s2 = self@;
        if request.prev_log_index > self.log.last_index(0) {
            return refuse_resp;
        }
        if request.prev_log_index >= self.log.start_index() {
            proof {
                lemma_entry_exists(self.log@, request.prev_log_index);
            }
            let log_entry = match self.log.entry(request.prev_log_index) {
                Some(e) => e,
                None => {
                    return refuse_resp;
                },
            };
            if request.prev_log_term != log_entry.term {
                return refuse_resp;
            }
        }
        if request.entries.len() == 0 {
            self.follower_advance_commit_index(request.leader_commit);
            return proto::AppendEntriesResp { term: self.current_term, success: true };
        }
        let ghost es = request@.entries;
        let ghost prev = request.prev_log_index as int;
        let ghost merged = merge_entries(s2.log, Seq::empty(), es, prev);
        assert(!merged.2 ==> old(self)@.handle_append_entries(request@) == (ConsensusView { log: merged.0, ..s2 }, refuse_resp));
        assert(merged.2 ==> old(self)@.appended_by(request@) == merged.1);
        let mut entries_to_be_replicated: Vec<LogEntry> = Vec::new();
        let mut index: u64 = request.prev_log_index;
        let mut k: usize = 0;
        assert(es.skip(0) =~= es);
        assert(proto::entries_view(entries_to_be_replicated@) =~= Seq::<LogEntryView>::empty());
        while k < request.entries.len()
            invariant
                k <= request.entries.len(),
                es == request@.entries,
                es.len() == request.entries.len(),
                index == prev + k,
                prev == request.prev_log_index,
                merged == merge_entries(s2.log, Seq::empty(), es, prev),
                merged.2 ==> old(self)@.appended_by(request@) == merged.1,
                old(self)@.can_handle_append_entries(request@),
                !merged.2 ==> old(self)@.handle_append_entries(request@) == (ConsensusView { log: merged.0, ..s2 }, refuse_resp),
                self@ == (ConsensusView { log: self.log@, ..s2 }),
                self.log@.start_index == s2.log.start_index,
                self.log@.start_index >= 1,
                self.log@.indexes_bounded(),
                configurations_decode(self.log@),
                merge_entries(self.log@, proto::entries_view(entries_to_be_replicated@), es.skip(k as int), index as int)
                    == merged,
                index <= self.log@.start_index + self.log@.entries.len() + entries_to_be_replicated@.len() - 1,
                forall|j: int|
                    0 <= j < entries_to_be_replicated@.len() ==> (#[trigger] entries_to_be_replicated@[j]).index
                        <= self.log@.start_index + self.log@.entries.len() + j
                        && entries_to_be_replicated@[j].index <= index,
            decreases request.entries.len() - k,
        {
            let entry = &request.entries[k];
            assert(es.skip(k as int)[0] == entry@);
            assert(es.skip(k as int).drop_first() =~= es.skip(k + 1));
            let ghost acc0 = proto::entries_view(entries_to_be_replicated@);
            if index == u64::MAX {
                assert(merge_entries(self.log@, acc0, es.skip(k as int), index as int) == (self.log@, acc0, false));
                return refuse_resp;
            }
            index = index + 1;
            if entry.index != index {
                assert(merge_entries(self.log@, acc0, es.skip(k as int), index - 1) == (self.log@, acc0, false));
                return refuse_resp;
            }
            if index >= self.log.start_index() {
                if self.log.last_index(0) >= index {
                    proof {
                        lemma_entry_exists(self.log@, index);
                    }
                    let log_entry = match self.log.entry(index) {
                        Some(e) => e,
                        None => {
                            return refuse_resp;
                        },
                    };
                    if log_entry.term != entry.term {
                        let ghost n0 = self.log@.entries.len();
                        assert(n0 > 0 ==> self.log@.entries[n0 - 1].index <= self.log@.start_index + n0 - 1);
                        assert(index - self.log@.start_index < n0);
                        self.log.truncate_suffix(index - 1);
                        entries_to_be_replicated.push(entry.duplicate());
                        assert(proto::entries_view(entries_to_be_replicated@) =~= acc0.push(entry@));
                        assert(self.log@.entries.len() >= index - self.log@.start_index);
                        assert(configurations_decode(self.log@)) by {
                            assert forall|i: int|
                                0 <= i < self.log@.entries.len() && (#[trigger] self.log@.entries[i]).entry_type
                                    == EntryType::Configuration implies config::decoded_configuration(
                                self.log@.entries[i].data,
                            ) is Some by {
                            }
                        }
                    }
                } else {
                    entries_to_be_replicated.push(entry.duplicate());
                    assert(proto::entries_view(entries_to_be_replicated@) =~= acc0.push(entry@));
                }
            }
            k = k + 1;
        }
        assert(es.skip(k as int) =~= Seq::<LogEntryView>::empty());
        let ghost acc = proto::entries_view(entries_to_be_replicated@);
        let ghost log3 = self.log@;
        assert(merged == (log3, acc, true));
        assert(old(self)@.appended_by(request@) == acc);
        assert(forall|j: int|
            0 <= j < acc.len() && (#[trigger] acc[j]).entry_type == EntryType::Configuration
                ==> config::decoded_configuration(acc[j].data) is Some);
        let mut configuration_entries: Vec<LogEntry> = Vec::new();
        let mut i: usize = 0;
        while i < entries_to_be_replicated.len()
            invariant
                i <= entries_to_be_replicated.len(),
                acc == proto::entries_view(entries_to_be_replicated@),
                proto::entries_view(configuration_entries@) == self::configuration_entries(acc.take(i as int)),
            decreases entries_to_be_replicated.len() - i,
        {
            assert(acc.take(i + 1).drop_last() =~= acc.take(i as int));
            let ghost before = proto::entries_view(configuration_entries@);
            if entries_to_be_replicated[i].entry_type() == EntryType::Configuration {
                configuration_entries.push(entries_to_be_replicated[i].duplicate());
                assert(proto::entries_view(configuration_entries@) =~= before.push(acc[i as int]));
            }
            i = i + 1;
        }
        assert(acc.take(i as int) =~= acc);
        self.log.append_entries(entries_to_be_replicated);
        let ghost s4 = self@;
        assert(s4 == (ConsensusView { log: LogView { entries: log3.entries + acc, ..log3 }, ..s2 }));
        proof {
            assert(s4.log.indexes_bounded()) by {
                assert forall|p: int| 0 <= p < s4.log.entries.len() implies (#[trigger] s4.log.entries[p]).index
                    <= s4.log.start_index + p by {
                    if p >= log3.entries.len() {
                        assert(s4.log.entries[p] == acc[p - log3.entries.len()]);
                    }
                }
            }
            assert(configurations_decode(s4.log)) by {
                assert forall|p: int|
                    0 <= p < s4.log.entries.len() && (#[trigger] s4.log.entries[p]).entry_type
                        == EntryType::Configuration implies config::decoded_configuration(
                    s4.log.entries[p].data,
                ) is Some by {
                    if p >= log3.entries.len() {
                        assert(s4.log.entries[p] == acc[p - log3.entries.len()]);
                    }
                }
            }
            lemma_configuration_entries_decode(acc);
        }
        let ghost cfgs = self::configuration_entries(acc);
        let mut j: usize = 0;
        while j < configuration_entries.len()
            invariant
                j <= configuration_entries.len(),
                cfgs == proto::entries_view(configuration_entries@),
                forall|q: int|
                    0 <= q < cfgs.len() ==> (#[trigger] cfgs[q]).entry_type == EntryType::Configuration
                        && config::decoded_configuration(cfgs[q].data) is Some,
                self@ == s4.configure_all(cfgs.take(j as int)),
                self@.log == s4.log,
            decreases configuration_entries.len() - j,
        {
            assert(cfgs.take(j + 1).drop_last() =~= cfgs.take(j as int));
            assert(cfgs[j as int] == configuration_entries@[j as int]@);
            let configuration = Configuration::from_data(&configuration_entries[j].data);
            self.apply_configuration(configuration);
            j = j + 1;
        }
        assert(cfgs.take(j as int) =~= cfgs);
        self.follower_advance_commit_index(request.leader_commit);
        proto::AppendEntriesResp { term: self.current_term, success: true }
    }


    /// Handles a RequestVote request of a candidate (see `ConsensusView::handle_request_vote`).
    pub fn handle_request_vote(&mut self, request: &proto::RequestVoteReq) -> (resp: proto::RequestVoteResp)
        requires
            old(self)@.can_handle_request_vote(*request),
        ensures
            (final(self)@, resp) == old(self)@.handle_request_vote(*request),
            old(self)@.wf() ==> final(self)@.wf(),
    {
        if request.term < self.current_term {
            return proto::RequestVoteResp { term: self.current_term, vote_granted: false };
        }
        if request.term > self.current_term {
            self.step_down(request.term);
        }
        let refuse_reply = proto::RequestVoteResp { term: self.current_term, vote_granted: false };
        let last_term = self.log.last_term(0);
        let log_is_ok = request.last_log_term > last_term || (request.last_log_term == last_term
            && request.last_log_index >= self.log.last_index(0));
        if !log_is_ok {
            return refuse_reply;
        }
        if self.voted_for != config::NONE_SERVER_ID && self.voted_for != request.candidate_id {
            return refuse_reply;
        }
        self.voted_for = request.candidate_id;
        self.push_action(Action::ResetElectionTimer);
        proto::RequestVoteResp { term: self.current_term, vote_granted: true }
    }

    /// Starts a round of RequestVote: forgets the votes of the last election.
    fn start_request_vote(&mut self)
        ensures
            final(self)@ == old(self)@.start_request_vote(),
    {
        self.peer_manager.reset_vote();
        assert(self@.peers =~= old(self)@.start_request_vote().peers);
        self.push_action(Action::RequestVotes);
    }

    /// The heartbeat timer fired: a leader starts a heartbeat round.
    pub fn handle_heartbeat_timeout(&mut self)
        ensures
            final(self)@ == if old(self)@.state == State::Leader {
                old(self)@.with_action(ActionView::ReplicateToPeers(true))
            } else {
                old(self)@
            },
    {
        if self.state == State::Leader {
            self.push_action(Action::ReplicateToPeers(true));
        }
    }

    /// The election timer fired (see `ConsensusView::handle_election_timeout`).
    pub fn handle_election_timeout(&mut self)
        requires
            old(self)@.state != State::Leader ==> old(self)@.current_term < u64::MAX,
        ensures
            final(self)@ == old(self)@.handle_election_timeout(),
            old(self)@.wf() ==> final(self)@.wf(),
    {
        match self.state {
            State::Leader => {},
            _ => {
                self.state = State::Candidate;
                self.current_term = self.current_term + 1;
                self.voted_for = self.server_id;
                self.push_action(Action::ResetElectionTimer);
                self.start_request_vote();
            },
        }
    }

    /// A snapshot timer tick: nothing to do.
    pub fn handle_snapshot_timeout(&mut self)
        ensures
            final(self)@ == old(self)@,
    {
    }

    /// The RequestVote request that this candidate sends to every peer.
    pub fn request_vote_request(&self) -> (req: proto::RequestVoteReq)
        requires
            self@.log.has_last_index(0),
        ensures
            req == (proto::RequestVoteReq {
                term: self@.current_term,
                candidate_id: self@.server_id,
                last_log_index: self@.log.last_index(0),
                last_log_term: self@.log.last_term(0),
            }),
    {
        proto::RequestVoteReq {
            term: self.current_term,
            candidate_id: self.server_id,
            last_log_index: self.log.last_index(0),
            last_log_term: self.log.last_term(0),
        }
    }

    /// Takes a peer's reply to RequestVote (see `ConsensusView::handle_request_vote_response`).
    pub fn handle_request_vote_response(&mut self, peer_server_id: u64, resp: &proto::RequestVoteResp) -> (done: bool)
        requires
            0 <= peer::first_peer_index(old(self)@.peers, peer_server_id),
            old(self)@.log.has_last_index(0),
            old(self)@.log.last_index(0) < u64::MAX,
        ensures
            (final(self)@, done) == old(self)@.handle_request_vote_response(peer_server_id, *resp),
            old(self)@.wf() ==> final(self)@.wf(),
    {
        if resp.term > self.current_term {
            self.state = State::Follower;
            self.current_term = resp.term;
            self.voted_for = config::NONE_SERVER_ID;
            return true;
        }
        if resp.vote_granted {
            match self.peer_manager.peer(peer_server_id) {
                Some(p) => {
                    p.vote_granted = true;
                },
                None => {},
            }
        }
        if self.peer_manager.quorum_vote_granted(&self.configuration_state) {
            self.become_leader();
            return true;
        }
        false
    }

    /// Ends a round of RequestVote that no reply ended (see `ConsensusView::finish_request_vote`).
    pub fn finish_request_vote(&mut self)
        requires
            old(self)@.log.has_last_index(0),
            old(self)@.log.last_index(0) < u64::MAX,
        ensures
            final(self)@ == old(self)@.finish_request_vote(),
            old(self)@.wf() ==> final(self)@.wf(),
    {
        if self.peer_manager.quorum_vote_granted(&self.configuration_state) {
            self.become_leader();
        }
    }

    /// Starts a leader's replication round (see `ConsensusView::append_entries`); with
    /// peers, the caller then sends each the request of `append_entries_request`.
    pub fn append_entries(&mut self, heartbeat: bool) -> (started: bool)
        requires
            old(self)@.wf(),
            old(self)@.state == State::Leader && old(self)@.peers.len() == 0
                ==> old(self)@.can_advance_leader_commit(),
        ensures
            (final(self)@, started) == old(self)@.append_entries(),
            final(self)@.wf(),
    {
        if self.state != State::Leader {
            return false;
        }
        if self.peer_manager.peers_num() == 0 {
            self.leader_advance_commit_index();
        }
        true
    }

    fn peer_position(&self, peer_server_id: u64) -> (i: usize)
        requires
            0 <= peer::first_peer_index(self@.peers, peer_server_id),
        ensures
            i == peer::first_peer_index(self@.peers, peer_server_id),
            i < self@.peers.len(),
    {
        self.peer_manager.peer_position(peer_server_id)
    }

    /// The AppendEntries request for a peer (see `ConsensusView::append_entries_request`).
    pub fn append_entries_request(&self, peer_server_id: u64, heartbeat: bool) -> (req: proto::AppendEntriesReq)
        requires
            self@.can_build_append_entries_request(peer_server_id),
        ensures
            req@ == self@.append_entries_request(peer_server_id, heartbeat),
    {
        let i = self.peer_position(peer_server_id);
        let peer = &self.peer_manager.peers()[i];
        let next_index = peer.next_index;
        let entries: Vec<LogEntry> = if heartbeat {
            Vec::new()
        } else {
            self.log.pack_entries(next_index)
        };
        let prev_log_index = next_index - 1;
        let prev_log_term = match self.log.entry(prev_log_index) {
            Some(e) => e.term,
            None => 0,
        };
        let req = proto::AppendEntriesReq {
            term: self.current_term,
            leader_id: self.server_id,
            prev_log_index,
            prev_log_term,
            entries,
            leader_commit: self.commit_index,
        };
        assert(req@.entries =~= self@.append_entries_request(peer_server_id, heartbeat).entries);
        req
    }

    /// Takes a peer's reply to AppendEntries (see
    /// `ConsensusView::handle_append_entries_response`).
    pub fn handle_append_entries_response(
        &mut self,
        peer_server_id: u64,
        request: &proto::AppendEntriesReq,
        resp: &proto::AppendEntriesResp,
    ) -> (accepted: bool)
        requires
            old(self)@.wf(),
            old(self)@.can_handle_append_entries_response(peer_server_id, request@, *resp),
        ensures
            (final(self)@, accepted) == old(self)@.handle_append_entries_response(
                peer_server_id,
                request@,
                *resp,
            ),
            final(self)@.wf(),
    {
        if resp.term > self.current_term {
            self.step_down(resp.term);
            return false;
        }
        let entries_num = request.entries.len() as u64;
        if resp.success {
            let match_index = request.prev_log_index + entries_num;
            match self.peer_manager.peer(peer_server_id) {
                Some(p) => {
                    p.match_index = match_index;
                    p.next_index = match_index + 1;
                },
                None => {},
            }
            self.leader_advance_commit_index();
            true
        } else {
            match self.peer_manager.peer(peer_server_id) {
                Some(p) => {
                    if p.next_index > 1 {
                        p.next_index = p.next_index - 1;
                    }
                },
                None => {},
            }
            assert(self@.peers =~= old(self)@.handle_append_entries_response(peer_server_id, request@, *resp).0.peers);
            false
        }
    }

    /// The reply to an InstallSnapshot request: snapshots are not installed yet, and the
    /// reply carries term 1.
    pub fn handle_install_snapshot(&mut self, request: &proto::InstallSnapshotReq) -> (resp: proto::InstallSnapshotResp)
        ensures
            resp.term == 1,
            final(self)@ == old(self)@,
    {
        proto::InstallSnapshotResp { term: 1 }
    }

    /// The server that this one takes for leader (see `ConsensusView::known_leader`).
    pub fn handle_get_leader(&mut self, request: &proto::GetLeaderReq) -> (resp: proto::GetLeaderResp)
        ensures
            final(self)@ == old(self)@,
            match resp.leader {
                Some(s) => old(self)@.known_leader() == Some((s.server_id, s.server_addr@)),
                None => old(self)@.known_leader() is None,
            },
    {
        if self.state == State::Leader {
            return proto::GetLeaderResp {
                leader: Some(proto::Server { server_id: self.server_id, server_addr: self.server_addr.clone() }),
            };
        }
        let peers = self.peer_manager.peers();
        let mut i: usize = 0;
        while i < peers.len()
            invariant
                i <= peers.len(),
                peer::peers_view(peers@) == self@.peers,
                forall|j: int| 0 <= j < i ==> self@.peers[j].server_id != self.leader_id,
                self.state != State::Leader,
            decreases peers.len() - i,
        {
            if peers[i].server_id == self.leader_id {
                proof {
                    assert(self@.peers[i as int].server_id == self.leader_id);
                    peer::lemma_first_peer_index(self@.peers, self.leader_id, i as int);
                    assert(exists|j: int| 0 <= j < self@.peers.len() && self@.peers[j].server_id == self.leader_id);
                }
                return proto::GetLeaderResp {
                    leader: Some(proto::Server { server_id: peers[i].server_id, server_addr: peers[i].server_addr.clone() }),
                };
            }
            i = i + 1;
        }
        proto::GetLeaderResp { leader: None }
    }

    /// All servers that this one knows: its peers, then itself.
    pub fn handle_get_configuration(&mut self, request: &proto::GetConfigurationReq) -> (resp: proto::GetConfigurationResp)
        ensures
            final(self)@ == old(self)@,
            resp.servers@.map_values(|s: proto::Server| (s.server_id, s.server_addr@))
                == old(self)@.known_servers(),
    {
        let mut servers: Vec<proto::Server> = Vec::new();
        let peers = self.peer_manager.peers();
        let mut i: usize = 0;
        while i < peers.len()
            invariant
                i <= peers.len(),
                peer::peers_view(peers@) == self@.peers,
                servers@.len() == i,
                forall|j: int|
                    0 <= j < i ==> (#[trigger] servers@[j]).server_id == self@.peers[j].server_id
                        && servers@[j].server_addr@ == self@.peers[j].server_addr,
            decreases peers.len() - i,
        {
            servers.push(proto::Server { server_id: peers[i].server_id, server_addr: peers[i].server_addr.clone() });
            i = i + 1;
        }
        servers.push(proto::Server { server_id: self.server_id, server_addr: self.server_addr.clone() });
        assert(servers@.map_values(|s: proto::Server| (s.server_id, s.server_addr@)) =~= self@.known_servers());
        proto::GetConfigurationResp { servers }
    }

    /// Replicates the joint configuration that moves the cluster to `new_servers`.
    fn append_joint_configuration(&mut self, new_servers: &Vec<proto::Server>) -> (ok: bool)
        requires
            old(self)@.state == State::Leader ==> old(self)@.log.has_last_index(0)
                && old(self)@.log.last_index(0) < u64::MAX,
        ensures
            ({
                let r = old(self)@.replicate(
                    EntryType::Configuration,
                    config::encoded_configuration(old(self)@.joint_configuration(
                        new_servers@.map_values(|s: proto::Server| (s.server_id, s.server_addr@)),
                    )),
                );
                final(self)@ == r.0 && ok == r.1 is Ok
            }),
            old(self)@.wf() ==> final(self)@.wf(),
    {
        let mut old_new_configuration = Configuration::new();
        old_new_configuration.append_new_servers(new_servers);
        let peers = self.peer_manager.peers();
        old_new_configuration.append_old_peers(peers);
        assert(peers@.map_values(|p: Peer| (p.server_id, p.server_addr@)) =~= self@.peers.map_values(
            |p: PeerView| (p.server_id, p.server_addr),
        ));
        old_new_configuration.old_servers.push(config::ServerInfo(self.server_id, self.server_addr.clone()));
        let ghost joint = self@.joint_configuration(
            new_servers@.map_values(|s: proto::Server| (s.server_id, s.server_addr@)),
        );
        assert(old_new_configuration@.new_servers =~= joint.new_servers);
        assert(old_new_configuration@.old_servers =~= joint.old_servers);
        let data = old_new_configuration.to_data();
        match self.replicate(EntryType::Configuration, data) {
            Ok(_) => true,
            Err(_) => false,
        }
    }

    /// A request to change the membership (see `ConsensusView::handle_set_configuration`).
    pub fn handle_set_configuration(&mut self, request: &proto::SetConfigurationReq) -> (resp: proto::SetConfigurationResp)
        requires
            old(self)@.wf(),
            old(self)@.state == State::Leader ==> old(self)@.log.last_index(0) < u64::MAX,
        ensures
            (final(self)@, resp.success) == old(self)@.handle_set_configuration(
                request.new_servers@.map_values(|s: proto::Server| (s.server_id, s.server_addr@)),
            ),
            final(self)@.wf(),
    {
        let refuse_reply = proto::SetConfigurationResp { success: false };
        if request.new_servers.len() == 0 {
            return refuse_reply;
        }
        proof {
            lemma_configurations_decode_last(self@.log);
        }
        match self.log.last_configuration() {
            Some(last_configuration) => {
                if last_configuration.old_servers.len() > 0 && last_configuration.new_servers.len() > 0 {
                    return refuse_reply;
                }
            },
            None => {},
        }
        let success = self.append_joint_configuration(&request.new_servers);
        proto::SetConfigurationResp { success }
    }

    /// Falls back to follower on seeing `new_term` (see `ConsensusView::step_down`).
    fn step_down(&mut self, new_term: u64)
        ensures
            final(self)@ == old(self)@.step_down(new_term),
    {
        if new_term < self.current_term {
            return;
        }
        self.state = State::Follower;
        if new_term > self.current_term {
            self.current_term = new_term;
            self.voted_for = config::NONE_SERVER_ID;
            self.leader_id = config::NONE_SERVER_ID;
        } else {
            self.leader_id = config::NONE_SERVER_ID;
        }
        self.push_action(Action::ResetElectionTimer);
    }

    /// Takes a configuration into use (see `ConsensusView::configure`).
    fn apply_configuration(&mut self, configuration: Configuration)
        ensures
            final(self)@ == old(self)@.configure(configuration@),
    {
        let ghost known = self@.peers;
        let mut new_peers: Vec<Peer> = Vec::new();
        let mut i: usize = 0;
        while i < configuration.new_servers.len()
            invariant
                i <= configuration.new_servers.len(),
                self@ == old(self)@,
                known == old(self)@.peers,
                peer::peers_view(new_peers@) == added_peers(
                    known,
                    self.server_id,
                    configuration@.new_servers.take(i as int),
                ),
            decreases configuration.new_servers.len() - i,
        {
            let server_info = &configuration.new_servers[i];
            assert(configuration@.new_servers.take(i + 1).drop_last() =~= configuration@.new_servers.take(i as int));
            assert(configuration@.new_servers[i as int] == server_info@);
            let ghost before = peer::peers_view(new_peers@);
            if !self.peer_manager.contains(server_info.0) && server_info.0 != self.server_id {
                let p = Peer::new(server_info.0, server_info.1.clone());
                new_peers.push(p);
                assert(peer::peers_view(new_peers@) =~= before.push(p@));
            } else {
                assert(peer::peers_view(new_peers@) =~= before);
            }
            i = i + 1;
        }
        assert(configuration@.new_servers.take(i as int) =~= configuration@.new_servers);
        self.peer_manager.add_peers(new_peers);
        let ghost all = self@.peers;
        let peers = self.peer_manager.peers_mut();
        let mut j: usize = 0;
        while j < peers.len()
            invariant
                j <= peers.len(),
                peers@.len() == all.len(),
                forall|k: int|
                    0 <= k < all.len() ==> (#[trigger] peers@[k])@ == if k < j {
                        PeerView { configuration_state: configuration@.state_of(all[k].server_id), ..all[k] }
                    } else {
                        all[k]
                    },
            decreases peers.len() - j,
        {
            let cs = configuration.query_configuration_state(peers[j].server_id);
            peers[j].configuration_state = cs;
            j = j + 1;
        }
        self.configuration_state = configuration.query_configuration_state(self.server_id);
        assert(self@.peers =~= old(self)@.configure(configuration@).peers);
    }
}


/// Tests of the conditions that the handlers require, for the caller to make before a call.
impl Consensus {
    /// Whether the log's last configuration is joint and one more entry fits.
    pub fn can_append_next_configuration(&self) -> (b: bool)
        requires
            self@.wf(),
        ensures
            b == self@.can_append_next_configuration(),
    {
        proof {
            lemma_configurations_decode_last(self@.log);
        }
        match self.log.last_configuration() {
            Some(c) => c.old_servers.len() > 0 && c.new_servers.len() > 0 && self.log.last_index(0) < u64::MAX,
            None => false,
        }
    }

    /// Whether committing up to `target` can proceed (see `ConsensusView::leader_commit_ok`).
    pub fn leader_commit_ok(&self, target: u64) -> (b: bool)
        requires
            self@.wf(),
        ensures
            b == self@.leader_commit_ok(target),
    {
        if target == u64::MAX || target > self.log.last_index(0) {
            return false;
        }
        if self.commit_index >= target {
            return true;
        }
        let mut first: Option<u64> = None;
        let mut i: u64 = self.commit_index + 1;
        while i <= target
            invariant
                self@.wf(),
                self.commit_index < i <= target + 1,
                target < u64::MAX,
                target <= self@.log.last_index(0),
                forall|k: int| self.commit_index < k < i ==> (joint_at(self@.log, k) <==> first == Some(k as u64)),
                first matches Some(f) ==> self.commit_index < f < i,
            decreases target + 1 - i,
        {
            if i >= self.log.start_index() {
                proof {
                    lemma_entry_exists(self@.log, i);
                }
            }
            let entry = match self.log.entry(i) {
                Some(e) => e,
                None => {
                    return false;
                },
            };
            if entry.entry_type() == EntryType::Configuration {
                proof {
                    let p = i - self@.log.start_index;
                    assert(self@.log.entries[p].entry_type == EntryType::Configuration);
                }
                let c = Configuration::from_data(&entry.data);
                if c.old_servers.len() > 0 && c.new_servers.len() > 0 {
                    assert(joint_at(self@.log, i as int));
                    match first {
                        Some(f) => {
                            assert(joint_at(self@.log, f as int));
                            return false;
                        },
                        None => {
                            first = Some(i);
                        },
                    }
                } else {
                    assert(!joint_at(self@.log, i as int));
                }
            } else {
                assert(!joint_at(self@.log, i as int));
            }
            i = i + 1;
        }
        match first {
            None => true,
            Some(f) => {
                assert(joint_at(self@.log, f as int));
                self.can_append_next_configuration()
            },
        }
    }

    /// Whether the leader can advance its commit index now.
    pub fn can_advance_leader_commit(&self) -> (b: bool)
        requires
            self@.wf(),
        ensures
            b == self@.can_advance_leader_commit(),
    {
        let target = self.peer_manager.quorum_match_index(&self.configuration_state, self.log.last_index(0));
        self.can_commit_to(target)
    }

    /// Whether committing up to `target` can proceed (see `ConsensusView::can_commit_to`).
    fn can_commit_to(&self, target: u64) -> (b: bool)
        requires
            self@.wf(),
        ensures
            b == self@.can_commit_to(target),
    {
        if target <= self.commit_index {
            return true;
        }
        match self.log.entry(target) {
            Some(e) => {
                if e.term == self.current_term {
                    self.leader_commit_ok(target)
                } else {
                    true
                }
            },
            None => true,
        }
    }

    /// Whether a leader's replication round can start now.
    pub fn can_append_entries(&self) -> (b: bool)
        requires
            self@.wf(),
        ensures
            b == (self@.state == State::Leader && self@.peers.len() == 0 ==> self@.can_advance_leader_commit()),
    {
        if self.state == State::Leader && self.peer_manager.peers_num() == 0 {
            self.can_advance_leader_commit()
        } else {
            true
        }
    }

    /// Whether a peer's reply to AppendEntries can be taken now.
    pub fn can_handle_append_entries_response(
        &self,
        peer_server_id: u64,
        request: &proto::AppendEntriesReq,
        resp: &proto::AppendEntriesResp,
    ) -> (b: bool)
        requires
            self@.wf(),
        ensures
            b == self@.can_handle_append_entries_response(peer_server_id, request@, *resp),
    {
        if !self.peer_manager.contains(peer_server_id) {
            proof {
                lemma_first_index_known(self@.peers, peer_server_id);
            }
            return false;
        }
        proof {
            lemma_first_index_known(self@.peers, peer_server_id);
        }
        if resp.term > self.current_term || !resp.success {
            return true;
        }
        let entries_num = request.entries.len() as u64;
        if request.prev_log_index >= u64::MAX - entries_num {
            return false;
        }
        let match_index = request.prev_log_index + entries_num;
        let target = self.peer_manager.quorum_match_index_after_match(
            &self.configuration_state,
            self.log.last_index(0),
            peer_server_id,
            match_index,
        );
        let ghost i = peer::first_peer_index(self@.peers, peer_server_id);
        let ghost s1 = ConsensusView {
            peers: self@.peers.update(
                i,
                PeerView { match_index, next_index: (match_index + 1) as u64, ..self@.peers[i] },
            ),
            ..self@
        };
        assert(s1.commit_target() == target);
        proof {
            lemma_can_commit_to_ignores_peers(self@, s1, target);
        }
        self.can_commit_to(target)
    }

    /// Whether an AppendEntries request can be handled (see
    /// `ConsensusView::can_handle_append_entries`): the request is merged into the log as
    /// the handler would merge it, without changing anything, and each configuration entry
    /// that would be appended is decoded.
    pub fn can_handle_append_entries(&self, request: &proto::AppendEntriesReq) -> (b: bool)
        requires
            self@.wf(),
        ensures
            b == self@.can_handle_append_entries(request@),
    {
        let ghost l0 = self@.log;
        let ghost es = request@.entries;
        if request.term < self.current_term || request.entries.len() == 0 {
            assert(self@.appended_by(request@) =~= Seq::<LogEntryView>::empty());
            return true;
        }
        if request.prev_log_index > self.log.last_index(0) {
            assert(self@.appended_by(request@) =~= Seq::<LogEntryView>::empty());
            return true;
        }
        let start = self.log.start_index();
        if request.prev_log_index >= start {
            proof {
                lemma_entry_exists(l0, request.prev_log_index);
            }
            match self.log.entry(request.prev_log_index) {
                Some(e) => {
                    if e.term != request.prev_log_term {
                        assert(self@.appended_by(request@) =~= Seq::<LogEntryView>::empty());
                        return true;
                    }
                },
                None => {
                    return true;
                },
            }
        }
        let ghost prev = request.prev_log_index as int;
        let ghost merged = merge_entries(l0, Seq::empty(), es, prev);
        let entries = self.log.entries();
        let mut kept: usize = entries.len();
        let mut index: u64 = request.prev_log_index;
        let mut k: usize = 0;
        let mut all_ok = true;
        let ghost mut acc: Seq<LogEntryView> = Seq::empty();
        assert(es.skip(0) =~= es);
        assert(l0.entries.take(kept as int) =~= l0.entries);
        assert(log_prefix(l0, kept as int) == l0);
        while k < request.entries.len()
            invariant
                k <= request.entries.len(),
                es == request@.entries,
                es.len() == request.entries.len(),
                index == prev + k,
                prev == request.prev_log_index,
                start == l0.start_index,
                l0 == self@.log,
                l0.start_index >= 1,
                l0.indexes_bounded(),
                proto::entries_view(entries@) == l0.entries,
                kept <= l0.entries.len(),
                merged == merge_entries(l0, Seq::empty(), es, prev),
                merge_entries(log_prefix(l0, kept as int), acc, es.skip(k as int), index as int) == merged,
                all_ok == (forall|j: int|
                    0 <= j < acc.len() && (#[trigger] acc[j]).entry_type == EntryType::Configuration
                        ==> config::decoded_configuration(acc[j].data) is Some),
            decreases request.entries.len() - k,
        {
            let ghost lp = log_prefix(l0, kept as int);
            let entry = &request.entries[k];
            assert(es.skip(k as int)[0] == entry@);
            assert(es.skip(k as int).drop_first() =~= es.skip(k + 1));
            if index == u64::MAX {
                assert(merged == (lp, acc, false));
                return true;
            }
            index = index + 1;
            if entry.index != index {
                assert(merged == (lp, acc, false));
                return true;
            }
            if index >= start {
                let tail = if kept > 0 {
                    assert(entries@[kept - 1]@ == l0.entries[kept - 1]);
                    entries[kept - 1].index
                } else {
                    start - 1
                };
                assert(lp.last_index(0) == tail);
                let mut push = false;
                if tail >= index {
                    assert(l0.entries[kept - 1].index <= l0.start_index + kept - 1);
                    let p = (index - start) as usize;
                    assert(entries@[p as int]@ == l0.entries[p as int]);
                    assert(lp.entry_at(index) == Some(l0.entries[p as int]));
                    if entries[p].term != entry.term {
                        assert(lp.truncated_suffix((index - 1) as u64).entries =~= l0.entries.take(p as int));
                        assert(lp.truncated_suffix((index - 1) as u64) == log_prefix(l0, p as int));
                        kept = p;
                        push = true;
                    }
                } else {
                    push = true;
                }
                if push {
                    let ghost acc0 = acc;
                    if entry.entry_type() == EntryType::Configuration {
                        let decodes = Configuration::try_from_data(&entry.data).is_some();
                        all_ok = all_ok && decodes;
                    }
                    proof {
                        acc = acc.push(entry@);
                        assert forall|j: int|
                            0 <= j < acc0.len() implies acc[j] == acc0[j] by {}
                        assert(acc[acc0.len() as int] == entry@);
                    }
                }
            }
            k = k + 1;
        }
        assert(es.skip(k as int) =~= Seq::<LogEntryView>::empty());
        assert(merged.1 == acc && merged.2);
        assert(self@.appended_by(request@) == acc);
        all_ok
    }

    /// Whether a RequestVote request can be handled (see
    /// `ConsensusView::can_handle_request_vote`).
    pub fn can_handle_request_vote(&self, request: &proto::RequestVoteReq) -> (b: bool)
        requires
            self@.wf(),
        ensures
            b == self@.can_handle_request_vote(*request),
    {
        if request.term < self.current_term {
            return true;
        }
        let state = if request.term > self.current_term { State::Follower } else { self.state };
        let voted_for = if request.term > self.current_term { config::NONE_SERVER_ID } else { self.voted_for };
        let last_term = self.log.last_term(0);
        let log_is_ok = request.last_log_term > last_term || (request.last_log_term == last_term
            && request.last_log_index >= self.log.last_index(0));
        !(log_is_ok && (voted_for == config::NONE_SERVER_ID || voted_for == request.candidate_id))
            || state == State::Follower
    }

    /// Whether a peer's reply to RequestVote can be taken now.
    pub fn can_handle_request_vote_response(&self, peer_server_id: u64) -> (b: bool)
        requires
            self@.wf(),
        ensures
            b == (0 <= peer::first_peer_index(self@.peers, peer_server_id) && self@.log.last_index(0) < u64::MAX),
    {
        proof {
            lemma_first_index_known(self@.peers, peer_server_id);
        }
        self.peer_manager.contains(peer_server_id) && self.log.last_index(0) < u64::MAX
    }

    /// Whether the request for a peer can be built (see
    /// `ConsensusView::can_build_append_entries_request`).
    #[verifier::spinoff_prover]
    pub fn can_build_append_entries_request(&self, peer_server_id: u64) -> (b: bool)
        ensures
            b == self@.can_build_append_entries_request(peer_server_id),
    {
        let ghost peers = self@.peers;
        assert(peers == self.peer_manager@);
        proof {
            lemma_first_index_known(peers, peer_server_id);
        }
        if !self.peer_manager.contains(peer_server_id) {
            return false;
        }
        let i = self.peer_position(peer_server_id);
        let all = self.peer_manager.peers();
        let next_index = all[i].next_index;
        assert(next_index == peers[i as int].next_index);
        if next_index < 1 {
            return false;
        }
        let e = self.log.entry(next_index - 1);
        e.is_some()
    }

    /// Whether replicating the given entry can proceed (see `ConsensusView::can_replicate`).
    pub fn can_replicate(&self, entry_type: EntryType, data: &Vec<u8>) -> (b: bool)
        requires
            self@.wf(),
        ensures
            b == self@.can_replicate(entry_type, data@),
    {
        if self.state != State::Leader {
            return true;
        }
        if self.log.last_index(0) == u64::MAX {
            return false;
        }
        if entry_type == EntryType::Configuration {
            Configuration::try_from_data(data).is_some()
        } else {
            true
        }
    }
}

} // verus!
