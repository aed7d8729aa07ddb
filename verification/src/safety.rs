//! Properties of the consensus state machine that hold across its handlers.
use vstd::prelude::*;
use vstd::pervasive::arbitrary;
use crate::config;
use crate::consensus::{
    configuration_entries, joint_at, lemma_append_next_configuration_log, lemma_entry_exists, merge_entries,
    ActionView, ConsensusView, State,
};
use crate::config::ConfigurationView;
use crate::log::LogView;
use crate::peer;
use crate::peer::PeerView;
use crate::proto;
use crate::proto::{EntryType, LogEntryView};

verus! {

proof fn lemma_follower_commit_from(s: ConsensusView, index: int, leader_commit: u64)
    requires
        index >= 1,
        s.commit_index == index - 1,
    ensures
        ({
            let r = s.follower_commit_from(index, leader_commit);
            &&& r.current_term == s.current_term
            &&& r.state == s.state
            &&& r.voted_for == s.voted_for
            &&& r.leader_id == s.leader_id
            &&& r.log == s.log
            &&& r.peers == s.peers
            &&& s.commit_index <= r.commit_index
            &&& r.commit_index <= if s.commit_index < leader_commit { leader_commit } else { s.commit_index }
        }),
    decreases leader_commit - index + 1,
{
    if index <= leader_commit {
        match s.log.entry_at(index as u64) {
            None => {},
            Some(e) => {
                let s1 = if e.entry_type == EntryType::Data {
                    s.with_action(ActionView::ApplyData(e.data))
                } else {
                    s
                };
                let s2 = ConsensusView { commit_index: (s1.commit_index + 1) as u64, ..s1 };
                lemma_follower_commit_from(s2, index + 1, leader_commit);
            },
        }
    }
}

proof fn lemma_follower_advance(s: ConsensusView, leader_commit: u64)
    ensures
        ({
            let r = s.follower_advance_commit_index(leader_commit);
            &&& r.current_term == s.current_term
            &&& r.state == s.state
            &&& r.voted_for == s.voted_for
            &&& r.leader_id == s.leader_id
            &&& r.log == s.log
            &&& s.commit_index <= r.commit_index
            &&& r.commit_index <= if s.commit_index < leader_commit { leader_commit } else { s.commit_index }
        }),
{
    if s.commit_index < leader_commit {
        lemma_follower_commit_from(s, s.commit_index + 1, leader_commit);
    }
}

proof fn lemma_configure_all(s: ConsensusView, cfgs: Seq<LogEntryView>)
    ensures
        ({
            let r = s.configure_all(cfgs);
            &&& r.current_term == s.current_term
            &&& r.state == s.state
            &&& r.voted_for == s.voted_for
            &&& r.leader_id == s.leader_id
            &&& r.log == s.log
            &&& r.commit_index == s.commit_index
        }),
    decreases cfgs.len(),
{
    if cfgs.len() > 0 {
        lemma_configure_all(s, cfgs.drop_last());
    }
}

/// Law: handling AppendEntries never lowers the term; a request of the current term or a
/// newer one makes the server a follower of the sender in the request's term, forgetting
/// its vote when that term is newer and keeping it otherwise; a request is accepted only
/// then; every reply carries the server's term after the request; and the commit index
/// never decreases nor passes the larger of its old value and the leader's commit index.
pub proof fn law_append_entries_follows_leader(s: ConsensusView, req: proto::AppendEntriesReqView)
    ensures
        ({
            let (r, resp) = s.handle_append_entries(req);
            &&& r.current_term >= s.current_term
            &&& req.term >= s.current_term ==> r.current_term == req.term && r.state == State::Follower
                && r.leader_id == req.leader_id
            &&& req.term > s.current_term ==> r.voted_for == config::NONE_SERVER_ID
            &&& req.term <= s.current_term ==> r.voted_for == s.voted_for
            &&& resp.success ==> req.term >= s.current_term
            &&& resp.term == r.current_term
            &&& s.commit_index <= r.commit_index
            &&& r.commit_index <= if s.commit_index < req.leader_commit {
                req.leader_commit
            } else {
                s.commit_index
            }
        }),
{
    if req.term >= s.current_term {
        let s1 = s.step_down(req.term);
        let s2 = ConsensusView { leader_id: req.leader_id, ..s1 };
        lemma_follower_advance(s2, req.leader_commit);
        let merged = merge_entries(s2.log, Seq::empty(), req.entries, req.prev_log_index as int);
        let s4 = ConsensusView { log: LogView { entries: merged.0.entries + merged.1, ..merged.0 }, ..s2 };
        lemma_configure_all(s4, configuration_entries(merged.1));
        let s5 = s4.configure_all(configuration_entries(merged.1));
        lemma_follower_advance(s5, req.leader_commit);
    }
}


/// The log made of `log` followed by the entries `acc`.
pub open spec fn followed_by(log: LogView, acc: Seq<LogEntryView>) -> LogView {
    LogView { entries: log.entries + acc, ..log }
}

/// What merging has established after `k` entries of `es`.
pub open spec fn merge_invariant(log: LogView, acc: Seq<LogEntryView>, es: Seq<LogEntryView>, prev: int, k: int) -> bool {
    let x = prev + k;
    let g = followed_by(log, acc);
    &&& 0 <= k <= es.len()
    &&& log.start_index >= 1
    &&& prev + 1 >= log.start_index
    &&& log.indexes_consecutive()
    &&& forall|j: int| 0 <= j < acc.len() ==> (#[trigger] acc[j]).index == log.last_index(0) + 1 + j
    &&& acc.len() > 0 ==> x == log.last_index(0) + acc.len()
    &&& acc.len() == 0 ==> x <= log.last_index(0)
    &&& forall|j: int|
        0 <= j < k ==> {
            &&& (#[trigger] g.entry_at((prev + 1 + j) as u64)) is Some
            &&& g.entry_at((prev + 1 + j) as u64).unwrap().index == prev + 1 + j
            &&& g.entry_at((prev + 1 + j) as u64).unwrap().term == es[j].term
        }
}

proof fn lemma_consecutive_entry(log: LogView, i: u64)
    requires
        log.start_index >= 1,
        log.indexes_consecutive(),
        log.start_index <= i <= log.last_index(0),
    ensures
        log.entry_at(i) is Some,
        log.entry_at(i).unwrap().index == i,
        log.entry_at(i).unwrap() == log.entries[i - log.start_index],
{
    let n = log.entries.len();
    if n > 0 {
        assert(log.entries[n - 1].index == log.start_index + n - 1);
    }
}

proof fn lemma_followed_by_consecutive(log: LogView, acc: Seq<LogEntryView>)
    requires
        log.start_index >= 1,
        log.indexes_consecutive(),
        forall|j: int| 0 <= j < acc.len() ==> (#[trigger] acc[j]).index == log.last_index(0) + 1 + j,
    ensures
        followed_by(log, acc).indexes_consecutive(),
        forall|i: u64|
            log.start_index <= i <= log.last_index(0) ==> #[trigger] followed_by(log, acc).entry_at(i) == log.entry_at(i),
{
    let n = log.entries.len();
    if n > 0 {
        assert(log.entries[n - 1].index == log.start_index + n - 1);
    }
    let g = followed_by(log, acc);
    assert forall|i: int| 0 <= i < g.entries.len() implies (#[trigger] g.entries[i]).index == g.start_index + i by {
        if i >= n {
            assert(g.entries[i] == acc[i - n]);
        }
    }
    assert forall|i: u64| log.start_index <= i <= log.last_index(0) implies #[trigger] followed_by(log, acc).entry_at(i)
        == log.entry_at(i) by {
        lemma_consecutive_entry(log, i);
    }
}

proof fn lemma_merge(log: LogView, acc: Seq<LogEntryView>, es: Seq<LogEntryView>, prev: int, k: int)
    requires
        merge_invariant(log, acc, es, prev, k),
    ensures
        ({
            let m = merge_entries(log, acc, es.skip(k), prev + k);
            m.2 ==> {
                let g = followed_by(m.0, m.1);
                &&& g.indexes_consecutive()
                &&& forall|j: int|
                    0 <= j < es.len() ==> {
                        &&& (#[trigger] g.entry_at((prev + 1 + j) as u64)) is Some
                        &&& g.entry_at((prev + 1 + j) as u64).unwrap().index == prev + 1 + j
                        &&& g.entry_at((prev + 1 + j) as u64).unwrap().term == es[j].term
                    }
            }
        }),
    decreases es.len() - k,
{
    let x = prev + k;
    let rest = es.skip(k);
    let n = log.entries.len();
    if n > 0 {
        assert(log.entries[n - 1].index == log.start_index + n - 1);
    }
    if k == es.len() {
        assert(rest.len() == 0);
        lemma_followed_by_consecutive(log, acc);
    } else {
        let idx = x + 1;
        let e = es[k];
        assert(rest[0] == e);
        assert(rest.drop_first() =~= es.skip(k + 1));
        if e.index == idx {
            let g = followed_by(log, acc);
            if log.last_index(0) >= idx {
                lemma_consecutive_entry(log, idx as u64);
                lemma_followed_by_consecutive(log, acc);
                if log.entry_at(idx as u64).unwrap().term == e.term {
                    assert forall|j: int| 0 <= j < k + 1 implies {
                        &&& (#[trigger] g.entry_at((prev + 1 + j) as u64)) is Some
                        &&& g.entry_at((prev + 1 + j) as u64).unwrap().index == prev + 1 + j
                        &&& g.entry_at((prev + 1 + j) as u64).unwrap().term == es[j].term
                    } by {
                        if j == k {
                            assert(followed_by(log, acc).entry_at(idx as u64) == log.entry_at(idx as u64));
                        }
                    }
                    lemma_merge(log, acc, es, prev, k + 1);
                } else {
                    let log2 = log.truncated_suffix((idx - 1) as u64);
                    let acc2 = acc.push(e);
                    let g2 = followed_by(log2, acc2);
                    assert(acc.len() == 0);
                    assert(log2.entries.len() == idx - log.start_index);
                    assert(log2.indexes_consecutive());
                    assert(log2.last_index(0) == idx - 1);
                    lemma_followed_by_consecutive(log2, acc2);
                    assert forall|j: int| 0 <= j < k + 1 implies {
                        &&& (#[trigger] g2.entry_at((prev + 1 + j) as u64)) is Some
                        &&& g2.entry_at((prev + 1 + j) as u64).unwrap().index == prev + 1 + j
                        &&& g2.entry_at((prev + 1 + j) as u64).unwrap().term == es[j].term
                    } by {
                        if j < k {
                            let i = (prev + 1 + j) as u64;
                            lemma_consecutive_entry(log, i);
                            lemma_consecutive_entry(log2, i);
                            assert(g.entry_at(i) == log.entry_at(i));
                        } else {
                            assert(g2.entries[idx - log.start_index] == acc2[0]);
                        }
                    }
                    lemma_merge(log2, acc2, es, prev, k + 1);
                }
            } else {
                let acc2 = acc.push(e);
                let g2 = followed_by(log, acc2);
                assert(e.index == log.last_index(0) + 1 + acc.len());
                lemma_followed_by_consecutive(log, acc2);
                assert forall|j: int| 0 <= j < k + 1 implies {
                    &&& (#[trigger] g2.entry_at((prev + 1 + j) as u64)) is Some
                    &&& g2.entry_at((prev + 1 + j) as u64).unwrap().index == prev + 1 + j
                    &&& g2.entry_at((prev + 1 + j) as u64).unwrap().term == es[j].term
                } by {
                    let i = (prev + 1 + j) as u64;
                    if j < k {
                        assert(g.entry_at(i) is Some);
                        assert(g2.entries[i - log.start_index] == g.entries[i - log.start_index]);
                    } else {
                        assert(g2.entries[idx - log.start_index] == acc2[acc.len() as int]);
                    }
                }
                lemma_merge(log, acc2, es, prev, k + 1);
            }
        }
    }
}

/// Law: when a follower whose log holds consecutive indexes accepts an AppendEntries
/// request whose new entries all lie from its log's start on, its log still holds
/// consecutive indexes, and holds at the index of every entry of the request an entry of
/// the same term.
pub proof fn law_accepted_entries_are_stored(s: ConsensusView, req: proto::AppendEntriesReqView)
    requires
        s.wf(),
        s.log.indexes_consecutive(),
        req.prev_log_index + 1 >= s.log.start_index,
    ensures
        ({
            let (r, resp) = s.handle_append_entries(req);
            resp.success ==> {
                &&& r.log.indexes_consecutive()
                &&& forall|j: int|
                    0 <= j < req.entries.len() ==> {
                        &&& (#[trigger] r.log.entry_at((req.prev_log_index + 1 + j) as u64)) is Some
                        &&& r.log.entry_at((req.prev_log_index + 1 + j) as u64).unwrap().index
                            == req.prev_log_index + 1 + j
                        &&& r.log.entry_at((req.prev_log_index + 1 + j) as u64).unwrap().term
                            == req.entries[j].term
                    }
            }
        }),
{
    if req.term >= s.current_term {
        let s1 = s.step_down(req.term);
        let s2 = ConsensusView { leader_id: req.leader_id, ..s1 };
        lemma_follower_advance(s2, req.leader_commit);
        if req.prev_log_index <= s2.log.last_index(0) && req.entries.len() > 0 {
            let prev = req.prev_log_index as int;
            assert(req.entries.skip(0) =~= req.entries);
            assert(followed_by(s2.log, Seq::empty()).entries =~= s2.log.entries);
            lemma_merge(s2.log, Seq::empty(), req.entries, prev, 0);
            let merged = merge_entries(s2.log, Seq::empty(), req.entries, prev);
            let s4 = ConsensusView { log: LogView { entries: merged.0.entries + merged.1, ..merged.0 }, ..s2 };
            lemma_configure_all(s4, configuration_entries(merged.1));
            let s5 = s4.configure_all(configuration_entries(merged.1));
            lemma_follower_advance(s5, req.leader_commit);
        }
    }
}

/// Law: a granted vote is recorded: the server then holds the request's term and its vote
/// names the candidate; a vote is never granted to a request from an older term; and
/// handling a request never lowers the term.
pub proof fn law_granted_vote_is_recorded(s: ConsensusView, req: proto::RequestVoteReq)
    ensures
        ({
            let (r, resp) = s.handle_request_vote(req);
            &&& r.current_term >= s.current_term
            &&& resp.vote_granted ==> req.term >= s.current_term && r.current_term == req.term
                && r.voted_for == req.candidate_id && resp.term == req.term
        }),
{
}

/// Law: on an election timeout a follower or candidate becomes a candidate of the next term
/// that votes for itself; a leader is left as it is.
pub proof fn law_election_timeout_starts_election(s: ConsensusView)
    requires
        s.current_term < u64::MAX,
    ensures
        s.state != State::Leader ==> {
            let r = s.handle_election_timeout();
            &&& r.state == State::Candidate
            &&& r.current_term == s.current_term + 1
            &&& r.voted_for == s.server_id
            &&& r.log == s.log
        },
        s.state == State::Leader ==> s.handle_election_timeout() == s,
{
}

/// Law: a candidate becomes leader on a RequestVote reply only when, with that reply's vote
/// counted, more than half of each side of the configuration voted for it.
pub proof fn law_leader_only_with_quorum(s: ConsensusView, peer_server_id: u64, resp: proto::RequestVoteResp)
    ensures
        ({
            let r = s.handle_request_vote_response(peer_server_id, resp).0;
            let i = peer::first_peer_index(s.peers, peer_server_id);
            let s1 = if resp.vote_granted {
                ConsensusView {
                    peers: s.peers.update(i, PeerView { vote_granted: true, ..s.peers[i] }),
                    ..s
                }
            } else {
                s
            };
            (r.state == State::Leader && s.state != State::Leader) ==> resp.term <= s.current_term
                && s1.wins_election()
        }),
{
}

/// Law: a candidate that becomes leader names itself leader and appends a no-op entry in
/// its term right after its last entry.
pub proof fn law_new_leader_appends_noop(s: ConsensusView)
    requires
        s.state == State::Candidate,
    ensures
        ({
            let r = s.become_leader();
            &&& r.state == State::Leader
            &&& r.leader_id == s.server_id
            &&& r.current_term == s.current_term
            &&& r.log.entries == s.log.entries.push(
                LogEntryView {
                    index: (s.log.last_index(0) + 1) as u64,
                    term: s.current_term,
                    entry_type: EntryType::Noop,
                    data: seq![78u8, 111u8, 110u8, 101u8],
                },
            )
        }),
{
}

/// Law: what a leader replicates can be read back at once: with a log whose indexes are
/// consecutive, the new entry is the last one, at the index after the old last one, in the
/// leader's term.
pub proof fn law_replicated_entry_is_readable(s: ConsensusView, entry_type: EntryType, data: Seq<u8>)
    requires
        s.state == State::Leader,
        s.log.start_index >= 1,
        s.log.indexes_consecutive(),
        s.log.last_index(0) < u64::MAX,
    ensures
        ({
            let r = s.replicate(entry_type, data).0;
            let e = LogEntryView {
                index: (s.log.last_index(0) + 1) as u64,
                term: s.current_term,
                entry_type,
                data,
            };
            &&& r.log.last_index(0) == s.log.last_index(0) + 1
            &&& r.log.entry_at((s.log.last_index(0) + 1) as u64) == Some(e)
            &&& r.log.indexes_consecutive()
        }),
{
    let r = s.replicate(entry_type, data).0;
    let n = s.log.entries.len();
    if n > 0 {
        assert(s.log.entries[n - 1].index == s.log.start_index + n - 1);
    }
    assert(r.log.entries == s.appended(entry_type, data).log.entries);
    assert(r.log.entries[n as int].index == s.log.start_index + n);
}

/// Entries that exist stay where they are when entries are appended at the end.
proof fn lemma_append_keeps_existing(log: LogView, log2: LogView, i: u64)
    requires
        log2.start_index == log.start_index,
        log2.entries.len() >= log.entries.len(),
        log2.entries.take(log.entries.len() as int) == log.entries,
        log.entry_at(i) is Some,
    ensures
        log2.entry_at(i) == log.entry_at(i),
{
    if i >= log.start_index {
        assert(log2.entries[i - log.start_index] == log.entries.take(log.entries.len() as int)[i - log.start_index]);
    }
}

proof fn lemma_leader_commit_from(s: ConsensusView, index: int, target: u64)
    requires
        1 <= index <= target + 1,
        target < u64::MAX,
        s.commit_index == index - 1,
        forall|k: int| index <= k <= target ==> (#[trigger] s.log.entry_at(k as u64)) is Some,
        forall|k: int|
            index <= k <= target && (#[trigger] s.log.entry_at(k as u64)).unwrap().entry_type
                == EntryType::Configuration ==> config::decoded_configuration(
                s.log.entry_at(k as u64).unwrap().data,
            ) is Some,
        forall|i: int, j: int|
            index <= i <= target && index <= j <= target && joint_at(s.log, i) && joint_at(s.log, j) ==> i == j,
        (exists|i: int| index <= i <= target && joint_at(s.log, i)) ==> s.can_append_next_configuration(),
    ensures
        s.leader_commit_from(index, target).commit_index == target,
        s.leader_commit_from(index, target).current_term == s.current_term,
        s.leader_commit_from(index, target).log.start_index == s.log.start_index,
        s.leader_commit_from(index, target).log.entries.len() >= s.log.entries.len(),
        s.leader_commit_from(index, target).log.entries.take(s.log.entries.len() as int) == s.log.entries,
    decreases target - index + 1,
{
    if index <= target {
        let e = s.log.entry_at(index as u64).unwrap();
        let s2 = s.leader_commit_one(e);
        let s1 = ConsensusView { commit_index: (s.commit_index + 1) as u64, ..s };
        if e.entry_type == EntryType::Configuration && config::decoded_configuration(e.data).unwrap().is_joint()
            && !(e.entry_type == EntryType::Data) {
            assert(joint_at(s.log, index));
            lemma_append_next_configuration_log(s1);
            assert forall|k: int| index + 1 <= k <= target implies (#[trigger] s2.log.entry_at(k as u64)) is Some
                && s2.log.entry_at(k as u64) == s.log.entry_at(k as u64) by {
                assert(s.log.entry_at(k as u64) is Some);
                lemma_append_keeps_existing(s1.log, s2.log, k as u64);
            }
            assert forall|k: int| index + 1 <= k <= target implies !joint_at(s2.log, k) by {
                assert(s.log.entry_at(k as u64) is Some);
                lemma_append_keeps_existing(s1.log, s2.log, k as u64);
                if joint_at(s.log, k) {
                    assert(k == index);
                }
            }
        } else {
            assert forall|i: int| index + 1 <= i <= target && joint_at(s2.log, i) implies joint_at(s.log, i) by {}
        }
        assert(s.log.entry_at(index as u64) is Some);
        lemma_leader_commit_from(s2, index + 1, target);
        lemma_append_next_configuration_log(s1);
        let r = s2.leader_commit_from(index + 1, target);
        let n = s.log.entries.len() as int;
        let n2 = s2.log.entries.len() as int;
        assert(s2.log.entries.take(n) =~= s.log.entries);
        assert(r.log.entries.take(n) =~= r.log.entries.take(n2).take(n));
    } else {
        assert(s.log.entries.take(s.log.entries.len() as int) =~= s.log.entries);
    }
}

/// Committing keeps the term and the vote.
proof fn lemma_leader_commit_keeps_vote(s: ConsensusView, index: int, target: u64)
    ensures
        s.leader_commit_from(index, target).current_term == s.current_term,
        s.leader_commit_from(index, target).voted_for == s.voted_for,
    decreases target - index + 1,
{
    if index <= target && index >= 0 {
        match s.log.entry_at(index as u64) {
            None => {},
            Some(e) => {
                lemma_leader_commit_keeps_vote(s.leader_commit_one(e), index + 1, target);
            },
        }
    }
}

/// Law: the leader commits only an entry of its own term: when it advances its commit
/// index, it reaches exactly the index that joint consensus holds committed, where that is
/// larger and the entry there is of the leader's current term, and it stays put otherwise;
/// the entry at the new commit index is then of the current term, and the term is kept.
pub proof fn law_leader_commits_up_to_target(s: ConsensusView)
    requires
        s.wf(),
        s.can_advance_leader_commit(),
    ensures
        ({
            let r = s.leader_advance_commit_index();
            let t = s.commit_target();
            &&& r.commit_index == if t > s.commit_index && s.log.entry_at(t) is Some && s.log.entry_at(t).unwrap().term
                == s.current_term {
                t
            } else {
                s.commit_index
            }
            &&& r.commit_index > s.commit_index ==> r.log.entry_at(r.commit_index) is Some
                && r.log.entry_at(r.commit_index).unwrap().term == s.current_term
            &&& r.current_term == s.current_term
        }),
{
    let t = s.commit_target();
    if s.commits_to_target() {
        assert forall|k: int| s.commit_index + 1 <= k <= t implies (#[trigger] s.log.entry_at(k as u64)) is Some by {
            if k >= s.log.start_index {
                lemma_entry_exists(s.log, k as u64);
            }
        }
        assert forall|k: int|
            s.commit_index + 1 <= k <= t && (#[trigger] s.log.entry_at(k as u64)).unwrap().entry_type
                == EntryType::Configuration implies config::decoded_configuration(
            s.log.entry_at(k as u64).unwrap().data,
        ) is Some by {
            if k >= s.log.start_index {
                lemma_entry_exists(s.log, k as u64);
                assert(s.log.entries[k - s.log.start_index] == s.log.entry_at(k as u64).unwrap());
            }
        }
        lemma_leader_commit_from(s, s.commit_index + 1, t);
        let r = s.leader_advance_commit_index();
        lemma_append_keeps_existing(s.log, r.log, t);
    }
}

/// Within one term a server's vote, once cast, stays as it is.
pub open spec fn keeps_vote(s: ConsensusView, r: ConsensusView) -> bool {
    r.current_term == s.current_term && s.voted_for != config::NONE_SERVER_ID ==> r.voted_for == s.voted_for
}

/// Law: a server votes for at most one candidate in a term.  Once it has voted, no handler
/// that leaves its term as it is changes its vote: AppendEntries requests and replies,
/// RequestVote requests and replies, the end of an election, replication, configuration
/// changes and the timers; and a RequestVote request of that term is granted only to the
/// candidate it voted for.
pub proof fn law_one_vote_per_term(
    s: ConsensusView,
    ae_req: proto::AppendEntriesReqView,
    ae_resp: proto::AppendEntriesResp,
    rv_req: proto::RequestVoteReq,
    rv_resp: proto::RequestVoteResp,
    peer_server_id: u64,
    entry_type: EntryType,
    data: Seq<u8>,
    new_servers: Seq<(u64, Seq<char>)>,
)
    ensures
        keeps_vote(s, s.handle_append_entries(ae_req).0),
        keeps_vote(s, s.handle_append_entries_response(peer_server_id, ae_req, ae_resp).0),
        keeps_vote(s, s.handle_request_vote(rv_req).0),
        keeps_vote(s, s.handle_request_vote_response(peer_server_id, rv_resp).0),
        keeps_vote(s, s.finish_request_vote()),
        keeps_vote(s, s.replicate(entry_type, data).0),
        keeps_vote(s, s.append_entries().0),
        keeps_vote(s, s.handle_set_configuration(new_servers).0),
        s.current_term < u64::MAX ==> keeps_vote(s, s.handle_election_timeout()),
        (s.voted_for != config::NONE_SERVER_ID && rv_req.term == s.current_term && s.handle_request_vote(
            rv_req,
        ).1.vote_granted) ==> rv_req.candidate_id == s.voted_for,
{
    law_append_entries_follows_leader(s, ae_req);
    if s.commits_to_target() {
        lemma_leader_commit_keeps_vote(s, s.commit_index + 1, s.commit_target());
    }
    let i = peer::first_peer_index(s.peers, peer_server_id);
    if ae_resp.term <= s.current_term && ae_resp.success {
        let m = (ae_req.prev_log_index + ae_req.entries.len()) as u64;
        let s1 = ConsensusView {
            peers: s.peers.update(i, PeerView { match_index: m, next_index: (m + 1) as u64, ..s.peers[i] }),
            ..s
        };
        if s1.commits_to_target() {
            lemma_leader_commit_keeps_vote(s1, s1.commit_index + 1, s1.commit_target());
        }
    }
}

/// Law: no handler lowers the term: AppendEntries requests and replies, RequestVote
/// requests and replies, the end of an election, replication, configuration changes, and
/// the election timeout, which moves to the next term.
pub proof fn law_term_never_decreases(
    s: ConsensusView,
    ae_req: proto::AppendEntriesReqView,
    ae_resp: proto::AppendEntriesResp,
    rv_req: proto::RequestVoteReq,
    rv_resp: proto::RequestVoteResp,
    peer_server_id: u64,
    entry_type: EntryType,
    data: Seq<u8>,
    new_servers: Seq<(u64, Seq<char>)>,
)
    ensures
        s.handle_append_entries(ae_req).0.current_term >= s.current_term,
        s.handle_append_entries_response(peer_server_id, ae_req, ae_resp).0.current_term >= s.current_term,
        s.handle_request_vote(rv_req).0.current_term >= s.current_term,
        s.handle_request_vote_response(peer_server_id, rv_resp).0.current_term >= s.current_term,
        s.finish_request_vote().current_term == s.current_term,
        s.replicate(entry_type, data).0.current_term == s.current_term,
        s.append_entries().0.current_term == s.current_term,
        s.handle_set_configuration(new_servers).0.current_term == s.current_term,
        s.state != State::Leader && s.current_term < u64::MAX ==> s.handle_election_timeout().current_term
            == s.current_term + 1,
{
    law_append_entries_follows_leader(s, ae_req);
    if s.commits_to_target() {
        lemma_leader_commit_keeps_vote(s, s.commit_index + 1, s.commit_target());
    }
    let i = peer::first_peer_index(s.peers, peer_server_id);
    if ae_resp.term <= s.current_term && ae_resp.success {
        let m = (ae_req.prev_log_index + ae_req.entries.len()) as u64;
        let s1 = ConsensusView {
            peers: s.peers.update(i, PeerView { match_index: m, next_index: (m + 1) as u64, ..s.peers[i] }),
            ..s
        };
        if s1.commits_to_target() {
            lemma_leader_commit_keeps_vote(s1, s1.commit_index + 1, s1.commit_target());
        }
    }
}

/// A step of a server: a message, a reply, or a timer that it handles.
pub enum Event {
    AppendEntries(proto::AppendEntriesReqView),
    AppendEntriesResponse(u64, proto::AppendEntriesReqView, proto::AppendEntriesResp),
    RequestVote(proto::RequestVoteReq),
    RequestVoteResponse(u64, proto::RequestVoteResp),
    FinishRequestVote,
    Replicate(EntryType, Seq<u8>),
    ReplicationRound,
    SetConfiguration(Seq<(u64, Seq<char>)>),
    ElectionTimeout,
    HeartbeatTimeout,
}

/// The state after one step; an election timeout at the largest term, which cannot be
/// handled, leaves the state as it is.
pub open spec fn step(s: ConsensusView, e: Event) -> ConsensusView {
    match e {
        Event::AppendEntries(req) => s.handle_append_entries(req).0,
        Event::AppendEntriesResponse(p, req, resp) => s.handle_append_entries_response(p, req, resp).0,
        Event::RequestVote(req) => s.handle_request_vote(req).0,
        Event::RequestVoteResponse(p, resp) => s.handle_request_vote_response(p, resp).0,
        Event::FinishRequestVote => s.finish_request_vote(),
        Event::Replicate(t, d) => s.replicate(t, d).0,
        Event::ReplicationRound => s.append_entries().0,
        Event::SetConfiguration(ns) => s.handle_set_configuration(ns).0,
        Event::ElectionTimeout => if s.state == State::Leader || s.current_term < u64::MAX {
            s.handle_election_timeout()
        } else {
            s
        },
        Event::HeartbeatTimeout => if s.state == State::Leader {
            s.with_action(ActionView::ReplicateToPeers(true))
        } else {
            s
        },
    }
}

/// The state after a sequence of steps, in order.
pub open spec fn run(s: ConsensusView, events: Seq<Event>) -> ConsensusView
    decreases events.len(),
{
    if events.len() == 0 {
        s
    } else {
        step(run(s, events.drop_last()), events.last())
    }
}

proof fn lemma_step(s: ConsensusView, e: Event)
    ensures
        step(s, e).current_term >= s.current_term,
        keeps_vote(s, step(s, e)),
{
    let (ae_req, ae_resp, rv_req, rv_resp, p, t, d, ns) = match e {
        Event::AppendEntries(req) => (req, arbitrary(), arbitrary(), arbitrary(), arbitrary(), arbitrary(), arbitrary(), arbitrary()),
        Event::AppendEntriesResponse(p, req, resp) => (req, resp, arbitrary(), arbitrary(), p, arbitrary(), arbitrary(), arbitrary()),
        Event::RequestVote(req) => (arbitrary(), arbitrary(), req, arbitrary(), arbitrary(), arbitrary(), arbitrary(), arbitrary()),
        Event::RequestVoteResponse(p, resp) => (arbitrary(), arbitrary(), arbitrary(), resp, p, arbitrary(), arbitrary(), arbitrary()),
        Event::Replicate(t, d) => (arbitrary(), arbitrary(), arbitrary(), arbitrary(), arbitrary(), t, d, arbitrary()),
        Event::SetConfiguration(ns) => (arbitrary(), arbitrary(), arbitrary(), arbitrary(), arbitrary(), arbitrary(), arbitrary(), ns),
        _ => (arbitrary(), arbitrary(), arbitrary(), arbitrary(), arbitrary(), arbitrary(), arbitrary(), arbitrary()),
    };
    law_term_never_decreases(s, ae_req, ae_resp, rv_req, rv_resp, p, t, d, ns);
    law_one_vote_per_term(s, ae_req, ae_resp, rv_req, rv_resp, p, t, d, ns);
}

/// Law: through any sequence of steps the term never falls, and while it stays the same a
/// vote once cast stays as it is; so a RequestVote request of that term is then granted
/// only to the candidate voted for: a server votes for at most one candidate in a term.
pub proof fn law_one_vote_per_term_through_any_run(s: ConsensusView, events: Seq<Event>, req: proto::RequestVoteReq)
    ensures
        run(s, events).current_term >= s.current_term,
        keeps_vote(s, run(s, events)),
        (s.voted_for != config::NONE_SERVER_ID && run(s, events).current_term == s.current_term && req.term
            == s.current_term && run(s, events).handle_request_vote(req).1.vote_granted) ==> req.candidate_id
            == s.voted_for,
    decreases events.len(),
{
    let r = run(s, events);
    if events.len() > 0 {
        let m = run(s, events.drop_last());
        law_one_vote_per_term_through_any_run(s, events.drop_last(), req);
        lemma_step(m, events.last());
    }
    law_one_vote_per_term(r, arbitrary(), arbitrary(), req, arbitrary(), arbitrary(), arbitrary(), arbitrary(), arbitrary());
}

/// Law: an election starts with no votes counted: on an election timeout a follower or
/// candidate forgets every vote that its peers granted before, keeping each peer otherwise,
/// so that it can win only with votes of the new term.
pub proof fn law_election_forgets_earlier_votes(s: ConsensusView)
    requires
        s.state != State::Leader,
        s.current_term < u64::MAX,
    ensures
        ({
            let r = s.handle_election_timeout();
            &&& r.peers.len() == s.peers.len()
            &&& forall|i: int|
                0 <= i < r.peers.len() ==> !(#[trigger] r.peers[i]).vote_granted && r.peers[i].server_id
                    == s.peers[i].server_id && r.peers[i].configuration_state == s.peers[i].configuration_state
                    && r.peers[i].match_index == s.peers[i].match_index && r.peers[i].next_index
                    == s.peers[i].next_index
        }),
{
}

/// Law: the vote goes to a candidate whose log is at least as up to date, by last term
/// first: when the request is not from an older term and the server is free to vote for the
/// candidate (a newer term, no vote yet, or a vote for that same candidate), the vote is
/// granted whenever the candidate's last term is newer, whatever its last index; refused
/// whenever its last term is older; and, with equal last terms, granted exactly when its
/// last index is at least the server's.  A request from an older term is refused.
pub proof fn law_vote_goes_to_an_up_to_date_log(s: ConsensusView, req: proto::RequestVoteReq)
    ensures
        ({
            let granted = s.handle_request_vote(req).1.vote_granted;
            let free = req.term > s.current_term || s.voted_for == config::NONE_SERVER_ID || s.voted_for
                == req.candidate_id;
            &&& req.term < s.current_term ==> !granted
            &&& req.term >= s.current_term && free && req.last_log_term > s.log.last_term(0) ==> granted
            &&& req.last_log_term < s.log.last_term(0) ==> !granted
            &&& req.term >= s.current_term && free && req.last_log_term == s.log.last_term(0) ==> (granted
                <==> req.last_log_index >= s.log.last_index(0))
            &&& !free ==> !granted
        }),
{
}

/// The state-machine actions for entries committed in order: the data of each data entry;
/// no-op and configuration entries give none.
pub open spec fn applied_data(es: Seq<LogEntryView>) -> Seq<ActionView>
    decreases es.len(),
{
    if es.len() == 0 {
        Seq::empty()
    } else {
        (if es[0].entry_type == EntryType::Data {
            seq![ActionView::ApplyData(es[0].data)]
        } else {
            Seq::empty()
        }) + applied_data(es.drop_first())
    }
}

proof fn lemma_follower_commit_applies(s: ConsensusView, index: int, leader_commit: u64, end: int)
    requires
        s.log.start_index >= 1,
        s.log.indexes_consecutive(),
        s.log.start_index <= index,
        s.commit_index == index - 1,
        end == if leader_commit < s.log.last_index(0) { leader_commit as int } else { s.log.last_index(0) as int },
        index <= end + 1,
    ensures
        ({
            let r = s.follower_commit_from(index, leader_commit);
            &&& r.commit_index == end
            &&& r.actions == s.actions + applied_data(
                s.log.entries.subrange(index - s.log.start_index, end + 1 - s.log.start_index),
            )
        }),
    decreases leader_commit - index + 1,
{
    let st = s.log.start_index;
    let n = s.log.entries.len();
    if n > 0 {
        assert(s.log.entries[n - 1].index == st + n - 1);
    }
    let sub = s.log.entries.subrange(index - st, end + 1 - st);
    if index > end {
        assert(sub =~= Seq::<LogEntryView>::empty());
        assert(s.actions + applied_data(sub) =~= s.actions);
        if index <= leader_commit {
            assert(s.log.entry_at(index as u64) is None);
        }
    } else {
        let e = s.log.entries[index - st];
        assert(s.log.entry_at(index as u64) == Some(e));
        let s1 = if e.entry_type == EntryType::Data {
            s.with_action(ActionView::ApplyData(e.data))
        } else {
            s
        };
        let s2 = ConsensusView { commit_index: (s1.commit_index + 1) as u64, ..s1 };
        lemma_follower_commit_applies(s2, index + 1, leader_commit, end);
        assert(sub[0] == e);
        assert(sub.drop_first() =~= s.log.entries.subrange(index + 1 - st, end + 1 - st));
        let head: Seq<ActionView> = if e.entry_type == EntryType::Data {
            seq![ActionView::ApplyData(e.data)]
        } else {
            Seq::empty()
        };
        assert(s2.actions =~= s.actions + head);
        assert(s.actions + head + applied_data(sub.drop_first()) =~= s.actions + (head + applied_data(
            sub.drop_first(),
        )));
    }
}

/// Law: a follower that commits up to the leader's commit index, with a log of consecutive
/// indexes that holds every entry past its commit index, commits as far as both reach and
/// hands to the state machine exactly the data of the newly committed data entries, in
/// index order: no-op and configuration entries give no action.
pub proof fn law_follower_applies_committed_data(s: ConsensusView, leader_commit: u64)
    requires
        s.log.start_index >= 1,
        s.log.indexes_consecutive(),
        s.commit_index + 1 >= s.log.start_index,
        s.commit_index <= s.log.last_index(0),
    ensures
        ({
            let r = s.follower_advance_commit_index(leader_commit);
            let end = if leader_commit < s.log.last_index(0) { leader_commit } else { s.log.last_index(0) };
            &&& r.commit_index == if s.commit_index < end { end } else { s.commit_index }
            &&& r.actions == s.actions + if s.commit_index < end {
                applied_data(
                    s.log.entries.subrange(
                        s.commit_index + 1 - s.log.start_index,
                        end + 1 - s.log.start_index,
                    ),
                )
            } else {
                Seq::empty()
            }
        }),
{
    let end = if leader_commit < s.log.last_index(0) { leader_commit } else { s.log.last_index(0) };
    if s.commit_index < leader_commit {
        lemma_follower_commit_applies(s, s.commit_index + 1, leader_commit, end as int);
        if s.commit_index >= end {
            let sub = s.log.entries.subrange(s.commit_index + 1 - s.log.start_index, end + 1 - s.log.start_index);
            assert(sub =~= Seq::<LogEntryView>::empty());
        }
    } else {
        assert(s.actions + Seq::<ActionView>::empty() =~= s.actions);
    }
}

proof fn lemma_numbered_entries_merge(log: LogView, acc: Seq<LogEntryView>, es: Seq<LogEntryView>, index: int)
    requires
        forall|j: int| 0 <= j < es.len() ==> (#[trigger] es[j]).index == index + 1 + j,
    ensures
        merge_entries(log, acc, es, index).2,
    decreases es.len(),
{
    if es.len() > 0 {
        let rest = es.drop_first();
        assert forall|j: int| 0 <= j < rest.len() implies (#[trigger] rest[j]).index == index + 1 + 1 + j by {
            assert(rest[j] == es[j + 1]);
        }
        assert(es[0].index == index + 1);
        let idx = index + 1;
        lemma_numbered_entries_merge(log, acc, rest, idx);
        lemma_numbered_entries_merge(log, acc.push(es[0]), rest, idx);
        if log.last_index(0) >= idx && idx >= log.start_index {
            lemma_numbered_entries_merge(log.truncated_suffix((idx - 1) as u64), acc.push(es[0]), rest, idx);
        }
    }
}

/// Law: a request of the current term or a newer one whose previous entry the follower
/// holds in the same term (or that lies before its log's start) and whose entries carry
/// the indexes that follow it is accepted, in the request's term; this holds also when the
/// follower already holds every entry in the same term, as after a retransmission.
pub proof fn law_consistent_append_entries_is_accepted(s: ConsensusView, req: proto::AppendEntriesReqView)
    requires
        req.term >= s.current_term,
        req.prev_log_index <= s.log.last_index(0),
        req.prev_log_index >= s.log.start_index ==> s.log.entry_at(req.prev_log_index) is Some
            && s.log.entry_at(req.prev_log_index).unwrap().term == req.prev_log_term,
        forall|j: int| 0 <= j < req.entries.len() ==> (#[trigger] req.entries[j]).index == req.prev_log_index + 1 + j,
    ensures
        s.handle_append_entries(req).1 == (proto::AppendEntriesResp { term: req.term, success: true }),
{
    law_append_entries_follows_leader(s, req);
    lemma_numbered_entries_merge(s.step_down(req.term).log, Seq::empty(), req.entries, req.prev_log_index as int);
}

proof fn lemma_added_peers_cover(peers: Seq<PeerView>, self_id: u64, servers: Seq<(u64, Seq<char>)>, k: int)
    requires
        0 <= k < servers.len(),
        servers[k].0 != self_id,
        !crate::consensus::knows_peer(peers, servers[k].0),
    ensures
        exists|i: int|
            0 <= i < crate::consensus::added_peers(peers, self_id, servers).len()
                && (#[trigger] crate::consensus::added_peers(peers, self_id, servers)[i]).server_id == servers[k].0,
    decreases servers.len(),
{
    let a = crate::consensus::added_peers(peers, self_id, servers);
    let a0 = crate::consensus::added_peers(peers, self_id, servers.drop_last());
    if k == servers.len() - 1 {
        assert(servers.last() == servers[k]);
        assert(a[a0.len() as int].server_id == servers[k].0);
    } else {
        assert(servers.drop_last()[k] == servers[k]);
        lemma_added_peers_cover(peers, self_id, servers.drop_last(), k);
        let i = choose|i: int| 0 <= i < a0.len() && (#[trigger] a0[i]).server_id == servers[k].0;
        assert(a[i] == a0[i]);
    }
}

/// Law: taking a configuration into use puts every server where the configuration says:
/// each peer, known before or added, stands on the sides of the configuration that name it,
/// and so does the server itself; the peers known before keep their place, id, indexes and
/// vote, and every other server of the new configuration becomes a peer.
pub proof fn law_configuration_places_every_server(s: ConsensusView, c: ConfigurationView)
    ensures
        ({
            let r = s.configure(c);
            &&& r.configuration_state == c.state_of(s.server_id)
            &&& r.peers.len() >= s.peers.len()
            &&& forall|i: int|
                0 <= i < r.peers.len() ==> (#[trigger] r.peers[i]).configuration_state == c.state_of(
                    r.peers[i].server_id,
                )
            &&& forall|i: int|
                0 <= i < s.peers.len() ==> (#[trigger] r.peers[i]).server_id == s.peers[i].server_id
                    && r.peers[i].match_index == s.peers[i].match_index && r.peers[i].next_index
                    == s.peers[i].next_index && r.peers[i].vote_granted == s.peers[i].vote_granted
            &&& forall|k: int|
                0 <= k < c.new_servers.len() && c.new_servers[k].0 != s.server_id ==> exists|i: int|
                    0 <= i < r.peers.len() && (#[trigger] r.peers[i]).server_id == (#[trigger] c.new_servers[k]).0
        }),
{
    let r = s.configure(c);
    let added = crate::consensus::added_peers(s.peers, s.server_id, c.new_servers);
    let all = s.peers + added;
    assert forall|k: int|
        0 <= k < c.new_servers.len() && c.new_servers[k].0 != s.server_id implies exists|i: int|
            0 <= i < r.peers.len() && (#[trigger] r.peers[i]).server_id == (#[trigger] c.new_servers[k]).0 by {
        if crate::consensus::knows_peer(s.peers, c.new_servers[k].0) {
            let i = choose|i: int| 0 <= i < s.peers.len() && s.peers[i].server_id == c.new_servers[k].0;
            assert(all[i] == s.peers[i]);
            assert(r.peers[i].server_id == c.new_servers[k].0);
        } else {
            lemma_added_peers_cover(s.peers, s.server_id, c.new_servers, k);
            let i = choose|i: int| 0 <= i < added.len() && (#[trigger] added[i]).server_id == c.new_servers[k].0;
            assert(all[s.peers.len() + i] == added[i]);
            assert(r.peers[s.peers.len() + i].server_id == c.new_servers[k].0);
        }
    }
    assert forall|i: int| 0 <= i < s.peers.len() implies (#[trigger] r.peers[i]).server_id == s.peers[i].server_id
        && r.peers[i].match_index == s.peers[i].match_index && r.peers[i].next_index == s.peers[i].next_index
        && r.peers[i].vote_granted == s.peers[i].vote_granted by {
        assert(all[i] == s.peers[i]);
    }
}

} // verus!
