//! Messages exchanged between raft servers and with the management client.
use vstd::prelude::*;

verus! {

/// The kind of payload that a log entry carries.
#[derive(Clone, Copy, Debug, PartialEq, Eq, Structural)]
pub enum EntryType {
    Data,
    Configuration,
    Noop,
}

/// One entry of the replicated log.
#[derive(Debug, PartialEq, Eq)]
pub struct LogEntry {
    pub index: u64,
    pub term: u64,
    pub entry_type: EntryType,
    pub data: Vec<u8>,
}

/// Mathematical value of a log entry.
pub struct LogEntryView {
    pub index: u64,
    pub term: u64,
    pub entry_type: EntryType,
    pub data: Seq<u8>,
}

impl View for LogEntry {
    type V = LogEntryView;

    open spec fn view(&self) -> LogEntryView {
        LogEntryView {
            index: self.index,
            term: self.term,
            entry_type: self.entry_type,
            data: self.data@,
        }
    }
}

pub open spec fn entries_view(entries: Seq<LogEntry>) -> Seq<LogEntryView> {
    entries.map_values(|e: LogEntry| e@)
}

/// A copy of a byte vector with the same contents.
pub fn copy_bytes(data: &Vec<u8>) -> (r: Vec<u8>)
    ensures
        r@ == data@,
{
    let r = data.clone();
    assert(r@ =~= data@);
    r
}

impl LogEntry {
    /// The type of the payload of this entry.
    pub fn entry_type(&self) -> (t: EntryType)
        ensures
            t == self.entry_type,
    {
        self.entry_type
    }

    /// A copy of this entry.
    pub fn duplicate(&self) -> (r: LogEntry)
        ensures
            r@ == self@,
    {
        LogEntry {
            index: self.index,
            term: self.term,
            entry_type: self.entry_type,
            data: copy_bytes(&self.data),
        }
    }
}

/// Request of the AppendEntries RPC, sent by the leader.
#[derive(Debug)]
pub struct AppendEntriesReq {
    pub term: u64,
    pub leader_id: u64,
    pub prev_log_index: u64,
    pub prev_log_term: u64,
    pub entries: Vec<LogEntry>,
    pub leader_commit: u64,
}

/// Mathematical value of an AppendEntries request.
pub struct AppendEntriesReqView {
    pub term: u64,
    pub leader_id: u64,
    pub prev_log_index: u64,
    pub prev_log_term: u64,
    pub entries: Seq<LogEntryView>,
    pub leader_commit: u64,
}

impl View for AppendEntriesReq {
    type V = AppendEntriesReqView;

    open spec fn view(&self) -> AppendEntriesReqView {
        AppendEntriesReqView {
            term: self.term,
            leader_id: self.leader_id,
            prev_log_index: self.prev_log_index,
            prev_log_term: self.prev_log_term,
            entries: entries_view(self.entries@),
            leader_commit: self.leader_commit,
        }
    }
}

/// Reply to an AppendEntries RPC.
#[derive(Debug, Clone, Copy, PartialEq, Eq, Structural)]
pub struct AppendEntriesResp {
    pub term: u64,
    pub success: bool,
}

/// Request of the RequestVote RPC, sent by a candidate.
#[derive(Debug, Clone, Copy, PartialEq, Eq, Structural)]
pub struct RequestVoteReq {
    pub term: u64,
    pub candidate_id: u64,
    pub last_log_index: u64,
    pub last_log_term: u64,
}

/// Reply to a RequestVote RPC.
#[derive(Debug, Clone, Copy, PartialEq, Eq, Structural)]
pub struct RequestVoteResp {
    pub term: u64,
    pub vote_granted: bool,
}

/// Request of the InstallSnapshot RPC.
#[derive(Debug)]
pub struct InstallSnapshotReq {
    pub term: u64,
    pub leader_id: u64,
    pub last_included_index: u64,
    pub last_included_term: u64,
    pub data: Vec<u8>,
}

/// Reply to an InstallSnapshot RPC.
#[derive(Debug, Clone, Copy, PartialEq, Eq, Structural)]
pub struct InstallSnapshotResp {
    pub term: u64,
}

/// A member of the cluster: its id and its address.
#[derive(Debug)]
pub struct Server {
    pub server_id: u64,
    pub server_addr: String,
}

#[derive(Debug)]
pub struct GetLeaderReq {}

#[derive(Debug)]
pub struct GetLeaderResp {
    pub leader: Option<Server>,
}

#[derive(Debug)]
pub struct GetConfigurationReq {}

#[derive(Debug)]
pub struct GetConfigurationResp {
    pub servers: Vec<Server>,
}

#[derive(Debug)]
pub struct SetConfigurationReq {
    pub new_servers: Vec<Server>,
}

#[derive(Debug, Clone, Copy, PartialEq, Eq, Structural)]
pub struct SetConfigurationResp {
    pub success: bool,
}

} // verus!
