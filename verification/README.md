# raft

The Raft consensus protocol (leader election, log replication, joint-consensus membership
changes), written in Verus.

## Layout

- `src/` — the verified library.
  - `proto.rs`: the messages between servers (log entries, AppendEntries, RequestVote, ...).
  - `log.rs`: the replicated log, its reads and truncations, and their laws.
  - `peer.rs`: the other servers, and the quorum rules of joint consensus (commit index,
    election), with the laws that the commit target is the largest index a majority
    reaches and that it never falls as match indexes grow.
  - `config.rs`: configurations Cold,new and Cnew and their byte encoding (bincode).
  - `consensus.rs`: one server as a state machine. Every handler is specified by a spec
    function on `ConsensusView` and leaves the work it cannot do itself (timer resets,
    applying committed data, RPC rounds) as `Action`s for the caller.
  - `safety.rs`: laws of the handlers: no handler lowers the term; once cast, a vote
    stays as it is through every handler, and through any sequence of steps, that keeps the
    term, so a server votes for one candidate per term; accepted entries are stored; a
    leader commits up to what a quorum holds, and only an entry of its own term; ...
  - `snapshot.rs`: snapshot metadata and snapshot file names.
  - `util.rs`: decimal text of numbers.
- `app/` — the server around the library: RPC over TCP, timers, files, and the loop that
  runs the actions the handlers leave.
- `tests/` — tests of the library.
