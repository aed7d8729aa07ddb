//! The other servers of the cluster as the local server sees them, and the quorum rules.
use vstd::prelude::*;
use crate::config;
use crate::config::ConfigurationState;

verus! {

/// What the local server knows of another server.
#[derive(Debug)]
pub struct Peer {
    pub server_id: u64,
    pub server_addr: String,
    pub next_index: u64,
    pub match_index: u64,
    pub vote_granted: bool,
    pub configuration_state: ConfigurationState,
}

/// Mathematical value of a peer.
pub struct PeerView {
    pub server_id: u64,
    pub server_addr: Seq<char>,
    pub next_index: u64,
    pub match_index: u64,
    pub vote_granted: bool,
    pub configuration_state: ConfigurationState,
}

impl View for Peer {
    type V = PeerView;

    open spec fn view(&self) -> PeerView {
        PeerView {
            server_id: self.server_id,
            server_addr: self.server_addr@,
            next_index: self.next_index,
            match_index: self.match_index,
            vote_granted: self.vote_granted,
            configuration_state: self.configuration_state,
        }
    }
}

pub open spec fn peers_view(peers: Seq<Peer>) -> Seq<PeerView> {
    peers.map_values(|p: Peer| p@)
}

impl Peer {
    /// A peer that nothing is known of yet: it is sent entries from index 1 on.
    pub fn new(server_id: u64, server_addr: String) -> (p: Peer)
        ensures
            p@ == (PeerView {
                server_id,
                server_addr: server_addr@,
                next_index: 1,
                match_index: 0,
                vote_granted: false,
                configuration_state: ConfigurationState { in_new: true, in_old: false },
            }),
    {
        Peer {
            server_id,
            server_addr,
            next_index: 1,
            match_index: 0,
            vote_granted: false,
            configuration_state: ConfigurationState::new(),
        }
    }
}

/// Number of elements of `s` that are at least `v`.
pub open spec fn count_ge(s: Seq<u64>, v: u64) -> nat
    decreases s.len(),
{
    if s.len() == 0 {
        0
    } else {
        count_ge(s.drop_last(), v) + if s.last() >= v { 1nat } else { 0nat }
    }
}

/// More than half of the elements of `s` are at least `v`.
pub open spec fn held_by_majority(s: Seq<u64>, v: u64) -> bool {
    2 * count_ge(s, v) > s.len()
}

/// `m` is an element of `s` held by a majority, and no larger element of `s` is.
pub open spec fn is_quorum_value(s: Seq<u64>, m: u64) -> bool {
    &&& exists|i: int| 0 <= i < s.len() && s[i] == m
    &&& held_by_majority(s, m)
    &&& forall|j: int| 0 <= j < s.len() && held_by_majority(s, s[j]) ==> s[j] <= m
}

/// The largest value that a majority of `s` reaches; `u64::MAX` when `s` is empty.
pub open spec fn quorum_value(s: Seq<u64>) -> u64 {
    if s.len() == 0 {
        u64::MAX
    } else {
        choose|m: u64| is_quorum_value(s, m)
    }
}

/// The match indexes of the voters of one side of the configuration: the leader's last
/// index first (when the leader is on that side), then each such peer's match index.
pub open spec fn voter_match_indexes(
    peers: Seq<PeerView>,
    leader_in: bool,
    leader_last_index: u64,
    new_side: bool,
) -> Seq<u64> {
    (if leader_in { seq![leader_last_index] } else { Seq::empty() }) + peer_match_indexes(
        peers,
        new_side,
    )
}

pub open spec fn on_side(p: PeerView, new_side: bool) -> bool {
    if new_side {
        p.configuration_state.in_new
    } else {
        p.configuration_state.in_old
    }
}

pub open spec fn peer_match_indexes(peers: Seq<PeerView>, new_side: bool) -> Seq<u64>
    decreases peers.len(),
{
    if peers.len() == 0 {
        Seq::empty()
    } else {
        peer_match_indexes(peers.drop_last(), new_side) + if on_side(peers.last(), new_side) {
            seq![peers.last().match_index]
        } else {
            Seq::empty()
        }
    }
}

/// Number of peers on one side of the configuration, and of those that granted their vote.
pub open spec fn count_on_side(peers: Seq<PeerView>, new_side: bool, granted_only: bool) -> nat
    decreases peers.len(),
{
    if peers.len() == 0 {
        0
    } else {
        count_on_side(peers.drop_last(), new_side, granted_only) + if on_side(
            peers.last(),
            new_side,
        ) && (!granted_only || peers.last().vote_granted) {
            1nat
        } else {
            0nat
        }
    }
}

/// One side of the configuration accepts the vote: it is empty, or more than half of it
/// (the candidate itself included, when it is on that side) granted its vote.
pub open spec fn side_grants(peers: Seq<PeerView>, leader_in: bool, new_side: bool) -> bool {
    let own: nat = if leader_in { 1 } else { 0 };
    let total = own + count_on_side(peers, new_side, false);
    let granted = own + count_on_side(peers, new_side, true);
    total == 0 || granted > total / 2
}

pub open spec fn min_u64(a: u64, b: u64) -> u64 {
    if a <= b { a } else { b }
}


proof fn lemma_count_ge_bounded(s: Seq<u64>, v: u64)
    ensures
        count_ge(s, v) <= s.len(),
    decreases s.len(),
{
    if s.len() > 0 {
        lemma_count_ge_bounded(s.drop_last(), v);
    }
}

proof fn lemma_count_ge_all(s: Seq<u64>, v: u64)
    requires
        forall|j: int| 0 <= j < s.len() ==> s[j] >= v,
    ensures
        count_ge(s, v) == s.len(),
    decreases s.len(),
{
    if s.len() > 0 {
        lemma_count_ge_all(s.drop_last(), v);
    }
}

/// Between two bounds that no element lies in, the counts agree.
proof fn lemma_count_ge_same(s: Seq<u64>, a: u64, b: u64)
    requires
        a <= b,
        forall|j: int| 0 <= j < s.len() ==> !(a <= #[trigger] s[j] < b),
    ensures
        count_ge(s, a) == count_ge(s, b),
    decreases s.len(),
{
    if s.len() > 0 {
        lemma_count_ge_same(s.drop_last(), a, b);
    }
}

proof fn lemma_count_ge_positive(s: Seq<u64>, v: u64)
    requires
        count_ge(s, v) > 0,
    ensures
        exists|i: int| 0 <= i < s.len() && s[i] >= v,
    decreases s.len(),
{
    if s.last() < v {
        lemma_count_ge_positive(s.drop_last(), v);
        let i = choose|i: int| 0 <= i < s.drop_last().len() && s.drop_last()[i] >= v;
        assert(s[i] >= v);
    } else {
        assert(s[s.len() - 1] >= v);
    }
}

/// The least element of `s` that is at least `v`, where there is one.
proof fn lemma_least_at_least(s: Seq<u64>, v: u64) -> (i: int)
    requires
        exists|k: int| 0 <= k < s.len() && s[k] >= v,
    ensures
        0 <= i < s.len(),
        s[i] >= v,
        forall|j: int| 0 <= j < s.len() && s[j] >= v ==> s[j] >= s[i],
    decreases s.len(),
{
    let last = s.len() - 1;
    if exists|k: int| 0 <= k < last && s[k] >= v {
        let p = s.drop_last();
        assert(exists|k: int| 0 <= k < p.len() && p[k] >= v) by {
            let k = choose|k: int| 0 <= k < last && s[k] >= v;
            assert(p[k] >= v);
        }
        let i0 = lemma_least_at_least(p, v);
        assert(forall|j: int| 0 <= j < last ==> s[j] == p[j]);
        if s[last] >= v && s[last] < s[i0] {
            last
        } else {
            i0
        }
    } else {
        last
    }
}

/// The least element of a non-empty sequence is held by all of it, hence by a majority.
proof fn lemma_some_element_held_by_majority(s: Seq<u64>) -> (i: int)
    requires
        s.len() > 0,
    ensures
        0 <= i < s.len(),
        held_by_majority(s, s[i]),
{
    assert(s[0] >= 0u64);
    let i = lemma_least_at_least(s, 0u64);
    lemma_count_ge_all(s, s[i]);
    i
}

proof fn lemma_quorum_value_unique(s: Seq<u64>, m: u64)
    requires
        is_quorum_value(s, m),
    ensures
        quorum_value(s) == m,
{
    let c = choose|c: u64| is_quorum_value(s, c);
    assert(is_quorum_value(s, c));
    let i = choose|i: int| 0 <= i < s.len() && s[i] == m;
    let k = choose|k: int| 0 <= k < s.len() && s[k] == c;
    assert(s[i] <= c);
    assert(s[k] <= m);
}

/// Law: the quorum value of a non-empty sequence is held by a majority of it, and no
/// larger value is, whether it occurs in the sequence or not.
pub proof fn lemma_quorum_value_is_largest_majority_value(s: Seq<u64>)
    requires
        s.len() > 0,
    ensures
        held_by_majority(s, quorum_value(s)),
        quorum_value(s) < u64::MAX ==> !held_by_majority(s, (quorum_value(s) + 1) as u64),
{
    let m = quorum_value(s);
    let i0 = lemma_some_element_held_by_majority(s);
    // the largest element held by a majority satisfies the definition
    let best = lemma_largest_majority_element(s, i0);
    lemma_quorum_value_unique(s, s[best]);
    if m < u64::MAX && held_by_majority(s, (m + 1) as u64) {
        let a = (m + 1) as u64;
        lemma_count_ge_positive(s, a);
        let w = lemma_least_at_least(s, a);
        lemma_count_ge_same(s, a, s[w]);
        assert(held_by_majority(s, s[w]));
        assert(s[w] <= m);
        assert(a == m + 1);
        assert(s[w] >= a);
    }
}

proof fn lemma_largest_majority_element(s: Seq<u64>, i0: int) -> (b: int)
    requires
        0 <= i0 < s.len(),
        held_by_majority(s, s[i0]),
    ensures
        0 <= b < s.len(),
        is_quorum_value(s, s[b]),
{
    let cands = Seq::new(s.len(), |j: int| if held_by_majority(s, s[j]) { s[j] } else { 0u64 });
    let b = lemma_max_index(cands);
    assert(cands[i0] == s[i0]);
    if !held_by_majority(s, s[b]) {
        assert(cands[i0] <= cands[b]);
        assert forall|j: int| 0 <= j < s.len() && held_by_majority(s, s[j]) implies s[j] <= s[i0] by {
            assert(cands[j] <= cands[b]);
        }
        i0
    } else {
        assert forall|j: int| 0 <= j < s.len() && held_by_majority(s, s[j]) implies s[j] <= s[b] by {
            assert(cands[j] <= cands[b]);
        }
        b
    }
}

proof fn lemma_max_index(s: Seq<u64>) -> (b: int)
    requires
        s.len() > 0,
    ensures
        0 <= b < s.len(),
        forall|j: int| 0 <= j < s.len() ==> s[j] <= s[b],
    decreases s.len(),
{
    if s.len() == 1 {
        0
    } else {
        let p = s.drop_last();
        let b0 = lemma_max_index(p);
        assert(forall|j: int| 0 <= j < p.len() ==> s[j] == p[j]);
        if s[s.len() - 1] > s[b0] {
            s.len() - 1
        } else {
            b0
        }
    }
}


proof fn lemma_count_ge_antitone(s: Seq<u64>, a: u64, b: u64)
    requires
        a <= b,
    ensures
        count_ge(s, a) >= count_ge(s, b),
    decreases s.len(),
{
    if s.len() > 0 {
        lemma_count_ge_antitone(s.drop_last(), a, b);
    }
}

/// Law: the index that the leader holds committed is reached by a majority of the voters
/// of each non-empty side of the configuration (the leader's last index counted when it
/// belongs there), and unless it is `u64::MAX`, the next index is not reached by a majority
/// of some non-empty side.
pub proof fn law_commit_target_is_largest_held_by_majorities(
    peers: Seq<PeerView>,
    leader_state: ConfigurationState,
    leader_last_index: u64,
)
    ensures
        ({
            let r = PeerManager::spec_quorum_match_index(peers, leader_state, leader_last_index);
            let vn = voter_match_indexes(peers, leader_state.in_new, leader_last_index, true);
            let vo = voter_match_indexes(peers, leader_state.in_old, leader_last_index, false);
            &&& vn.len() > 0 ==> held_by_majority(vn, r)
            &&& vo.len() > 0 ==> held_by_majority(vo, r)
            &&& r < u64::MAX ==> (vn.len() > 0 && !held_by_majority(vn, (r + 1) as u64)) || (vo.len() > 0
                && !held_by_majority(vo, (r + 1) as u64))
        }),
{
    let r = PeerManager::spec_quorum_match_index(peers, leader_state, leader_last_index);
    let vn = voter_match_indexes(peers, leader_state.in_new, leader_last_index, true);
    let vo = voter_match_indexes(peers, leader_state.in_old, leader_last_index, false);
    if vn.len() > 0 {
        lemma_quorum_value_is_largest_majority_value(vn);
        lemma_count_ge_antitone(vn, r, quorum_value(vn));
    }
    if vo.len() > 0 {
        lemma_quorum_value_is_largest_majority_value(vo);
        lemma_count_ge_antitone(vo, r, quorum_value(vo));
    }
}

/// Each element of `a` is at most the element of `b` at the same position.
pub open spec fn pointwise_le(a: Seq<u64>, b: Seq<u64>) -> bool {
    &&& a.len() == b.len()
    &&& forall|i: int| 0 <= i < a.len() ==> a[i] <= b[i]
}

proof fn lemma_count_ge_pointwise(a: Seq<u64>, b: Seq<u64>, v: u64)
    requires
        pointwise_le(a, b),
    ensures
        count_ge(a, v) <= count_ge(b, v),
    decreases a.len(),
{
    if a.len() > 0 {
        assert(a.last() == a[a.len() - 1] && b.last() == b[b.len() - 1]);
        lemma_count_ge_pointwise(a.drop_last(), b.drop_last(), v);
    }
}

proof fn lemma_quorum_value_pointwise(a: Seq<u64>, b: Seq<u64>)
    requires
        pointwise_le(a, b),
    ensures
        quorum_value(a) <= quorum_value(b),
{
    if a.len() > 0 {
        let qa = quorum_value(a);
        let qb = quorum_value(b);
        lemma_quorum_value_is_largest_majority_value(a);
        lemma_quorum_value_is_largest_majority_value(b);
        lemma_count_ge_pointwise(a, b, qa);
        if qa > qb {
            lemma_count_ge_antitone(b, (qb + 1) as u64, qa);
        }
    }
}

proof fn lemma_peer_match_indexes_pointwise(peers: Seq<PeerView>, peers2: Seq<PeerView>, new_side: bool)
    requires
        peers2.len() == peers.len(),
        forall|i: int|
            0 <= i < peers.len() ==> (#[trigger] peers2[i]).configuration_state == peers[i].configuration_state
                && peers[i].match_index <= peers2[i].match_index,
    ensures
        pointwise_le(peer_match_indexes(peers, new_side), peer_match_indexes(peers2, new_side)),
    decreases peers.len(),
{
    if peers.len() > 0 {
        let p = peers.drop_last();
        let p2 = peers2.drop_last();
        assert forall|i: int| 0 <= i < p.len() implies (#[trigger] p2[i]).configuration_state
            == p[i].configuration_state && p[i].match_index <= p2[i].match_index by {
            assert(p2[i] == peers2[i] && p[i] == peers[i]);
        }
        lemma_peer_match_indexes_pointwise(p, p2, new_side);
        assert(peers2.last() == peers2[peers.len() - 1] && peers.last() == peers[peers.len() - 1]);
        let a = peer_match_indexes(p, new_side);
        let b = peer_match_indexes(p2, new_side);
        let ta: Seq<u64> = if on_side(peers.last(), new_side) { seq![peers.last().match_index] } else { Seq::empty() };
        let tb: Seq<u64> = if on_side(peers2.last(), new_side) { seq![peers2.last().match_index] } else { Seq::empty() };
        assert forall|i: int| 0 <= i < (a + ta).len() implies (a + ta)[i] <= (b + tb)[i] by {
            if i < a.len() {
                assert((a + ta)[i] == a[i] && (b + tb)[i] == b[i]);
            } else {
                assert((a + ta)[i] == ta[i - a.len()] && (b + tb)[i] == tb[i - a.len()]);
            }
        }
    }
}

/// Law: the commit target never falls when match indexes grow: with the same peers on the
/// same sides of the configuration, each match index at least as large and the leader's
/// last index at least as large, the index held committed is at least as large.
pub proof fn law_commit_target_grows_with_match_indexes(
    peers: Seq<PeerView>,
    peers2: Seq<PeerView>,
    leader_state: ConfigurationState,
    leader_last_index: u64,
    leader_last_index2: u64,
)
    requires
        peers2.len() == peers.len(),
        forall|i: int|
            0 <= i < peers.len() ==> (#[trigger] peers2[i]).configuration_state == peers[i].configuration_state
                && peers[i].match_index <= peers2[i].match_index,
        leader_last_index <= leader_last_index2,
    ensures
        PeerManager::spec_quorum_match_index(peers, leader_state, leader_last_index)
            <= PeerManager::spec_quorum_match_index(peers2, leader_state, leader_last_index2),
{
    lemma_peer_match_indexes_pointwise(peers, peers2, true);
    lemma_peer_match_indexes_pointwise(peers, peers2, false);
    assert forall|side: bool, leader_in: bool| pointwise_le(
        #[trigger] voter_match_indexes(peers, leader_in, leader_last_index, side),
        voter_match_indexes(peers2, leader_in, leader_last_index2, side),
    ) by {
        let a = peer_match_indexes(peers, side);
        let b = peer_match_indexes(peers2, side);
        let ha: Seq<u64> = if leader_in { seq![leader_last_index] } else { Seq::empty() };
        let hb: Seq<u64> = if leader_in { seq![leader_last_index2] } else { Seq::empty() };
        assert forall|i: int| 0 <= i < (ha + a).len() implies (ha + a)[i] <= (hb + b)[i] by {
            if i < ha.len() {
                assert((ha + a)[i] == ha[i] && (hb + b)[i] == hb[i]);
            } else {
                assert((ha + a)[i] == a[i - ha.len()] && (hb + b)[i] == b[i - ha.len()]);
            }
        }
    }
    lemma_quorum_value_pointwise(
        voter_match_indexes(peers, leader_state.in_new, leader_last_index, true),
        voter_match_indexes(peers2, leader_state.in_new, leader_last_index2, true),
    );
    lemma_quorum_value_pointwise(
        voter_match_indexes(peers, leader_state.in_old, leader_last_index, false),
        voter_match_indexes(peers2, leader_state.in_old, leader_last_index2, false),
    );
}

/// Number of peers on one side of the configuration that granted their vote in both tallies.
pub open spec fn count_granted_in_both(a: Seq<PeerView>, b: Seq<PeerView>, new_side: bool) -> nat
    decreases a.len(),
{
    if a.len() == 0 || b.len() == 0 {
        0
    } else {
        count_granted_in_both(a.drop_last(), b.drop_last(), new_side) + if on_side(a.last(), new_side)
            && a.last().vote_granted && b.last().vote_granted {
            1nat
        } else {
            0nat
        }
    }
}

proof fn lemma_granted_overlap(a: Seq<PeerView>, b: Seq<PeerView>, new_side: bool)
    requires
        a.len() == b.len(),
        forall|i: int| 0 <= i < a.len() ==> (#[trigger] b[i]).configuration_state == a[i].configuration_state,
    ensures
        count_on_side(a, new_side, true) + count_on_side(b, new_side, true) <= count_on_side(a, new_side, false)
            + count_granted_in_both(a, b, new_side),
        count_on_side(b, new_side, false) == count_on_side(a, new_side, false),
        count_granted_in_both(a, b, new_side) > 0 ==> exists|i: int|
            0 <= i < a.len() && on_side(a[i], new_side) && a[i].vote_granted && (#[trigger] b[i]).vote_granted,
    decreases a.len(),
{
    if a.len() > 0 {
        let a0 = a.drop_last();
        let b0 = b.drop_last();
        assert forall|i: int| 0 <= i < a0.len() implies (#[trigger] b0[i]).configuration_state
            == a0[i].configuration_state by {
            assert(b0[i] == b[i] && a0[i] == a[i]);
        }
        lemma_granted_overlap(a0, b0, new_side);
        let n = a.len() - 1;
        assert(a.last() == a[n] && b.last() == b[n]);
        if count_granted_in_both(a0, b0, new_side) > 0 {
            let i = choose|i: int|
                0 <= i < a0.len() && on_side(a0[i], new_side) && a0[i].vote_granted && (#[trigger] b0[i]).vote_granted;
            assert(a[i] == a0[i] && b[i] == b0[i]);
        }
    }
}

/// Law: two tallies of votes over the same voters that each win one side of the
/// configuration (counting voters only) share a voter on that side: some server granted
/// its vote in both.  A server that votes once per term thus cannot let two candidates win
/// the same side in one term.
pub proof fn law_vote_majorities_intersect(a: Seq<PeerView>, b: Seq<PeerView>, new_side: bool)
    requires
        a.len() == b.len(),
        forall|i: int| 0 <= i < a.len() ==> (#[trigger] b[i]).configuration_state == a[i].configuration_state,
        count_on_side(a, new_side, false) > 0,
        side_grants(a, false, new_side),
        side_grants(b, false, new_side),
    ensures
        exists|i: int|
            0 <= i < a.len() && on_side(a[i], new_side) && a[i].vote_granted && (#[trigger] b[i]).vote_granted,
{
    lemma_granted_overlap(a, b, new_side);
    let total = count_on_side(a, new_side, false);
    assert(2 * (total / 2) + 2 > total) by (nonlinear_arith);
}

fn count_at_least(vals: &Vec<u64>, v: u64) -> (c: usize)
    ensures
        c == count_ge(vals@, v),
{
    let mut c: usize = 0;
    let mut j: usize = 0;
    while j < vals.len()
        invariant
            j <= vals.len(),
            c == count_ge(vals@.take(j as int), v),
            c <= j,
        decreases vals.len() - j,
    {
        assert(vals@.take(j + 1).drop_last() =~= vals@.take(j as int));
        if vals[j] >= v {
            c = c + 1;
        }
        j = j + 1;
    }
    assert(vals@.take(j as int) =~= vals@);
    c
}

/// The largest value that a majority of a non-empty list of indexes reaches.
fn majority_value(vals: &Vec<u64>) -> (m: u64)
    requires
        vals.len() > 0,
    ensures
        is_quorum_value(vals@, m),
        m == quorum_value(vals@),
{
    let n = vals.len();
    let mut best: u64 = 0;
    let mut found = false;
    let mut i: usize = 0;
    while i < n
        invariant
            n == vals.len(),
            i <= n,
            found ==> (exists|k: int| 0 <= k < i && vals@[k] == best) && held_by_majority(vals@, best),
            forall|k: int| 0 <= k < i && held_by_majority(vals@, vals@[k]) ==> found && vals@[k] <= best,
        decreases n - i,
    {
        let c = count_at_least(vals, vals[i]);
        proof {
            lemma_count_ge_bounded(vals@, vals@[i as int]);
        }
        if c > n - c && (!found || vals[i] > best) {
            best = vals[i];
            found = true;
        }
        i = i + 1;
    }
    proof {
        let i0 = lemma_some_element_held_by_majority(vals@);
        assert(found);
        lemma_quorum_value_unique(vals@, best);
    }
    best
}

/// Position of the first peer with the given id, or -1 when there is none.
pub open spec fn first_peer_index(peers: Seq<PeerView>, server_id: u64) -> int {
    if exists|i: int| 0 <= i < peers.len() && peers[i].server_id == server_id {
        choose|i: int|
            0 <= i < peers.len() && peers[i].server_id == server_id && forall|j: int|
                0 <= j < i ==> peers[j].server_id != server_id
    } else {
        -1
    }
}

pub proof fn lemma_first_peer_index(peers: Seq<PeerView>, server_id: u64, i: int)
    requires
        0 <= i < peers.len(),
        peers[i].server_id == server_id,
        forall|j: int| 0 <= j < i ==> peers[j].server_id != server_id,
    ensures
        first_peer_index(peers, server_id) == i,
{
    let k = first_peer_index(peers, server_id);
    assert(0 <= k < peers.len() && peers[k].server_id == server_id && forall|j: int|
        0 <= j < k ==> peers[j].server_id != server_id);
    if k < i {
        assert(peers[k].server_id != server_id);
    }
    if k > i {
        assert(peers[i].server_id != server_id);
    }
}

/// The first peer with a given id exists exactly when some peer has that id.
pub proof fn lemma_first_peer_index_exists(peers: Seq<PeerView>, server_id: u64)
    ensures
        (exists|i: int| 0 <= i < peers.len() && peers[i].server_id == server_id) ==> {
            let k = first_peer_index(peers, server_id);
            &&& 0 <= k < peers.len()
            &&& peers[k].server_id == server_id
            &&& forall|j: int| 0 <= j < k ==> peers[j].server_id != server_id
        },
        !(exists|i: int| 0 <= i < peers.len() && peers[i].server_id == server_id) ==> first_peer_index(
            peers,
            server_id,
        ) == -1,
    decreases peers.len(),
{
    if exists|i: int| 0 <= i < peers.len() && peers[i].server_id == server_id {
        let m = lemma_some_first(peers, server_id);
        lemma_first_peer_index(peers, server_id, m);
    }
}

proof fn lemma_some_first(peers: Seq<PeerView>, server_id: u64) -> (m: int)
    requires
        exists|i: int| 0 <= i < peers.len() && peers[i].server_id == server_id,
    ensures
        0 <= m < peers.len(),
        peers[m].server_id == server_id,
        forall|j: int| 0 <= j < m ==> peers[j].server_id != server_id,
    decreases peers.len(),
{
    let p = peers.drop_last();
    if exists|i: int| 0 <= i < p.len() && p[i].server_id == server_id {
        let m = lemma_some_first(p, server_id);
        assert(peers[m] == p[m]);
        assert forall|j: int| 0 <= j < m implies peers[j].server_id != server_id by {
            assert(peers[j] == p[j]);
        }
        m
    } else {
        let i = choose|i: int| 0 <= i < peers.len() && peers[i].server_id == server_id;
        assert forall|j: int| 0 <= j < peers.len() - 1 implies peers[j].server_id != server_id by {
            assert(peers[j] == p[j]);
        }
        peers.len() - 1
    }
}

proof fn lemma_no_peer_index(peers: Seq<PeerView>, server_id: u64)
    requires
        forall|j: int| 0 <= j < peers.len() ==> peers[j].server_id != server_id,
    ensures
        first_peer_index(peers, server_id) == -1,
{
}

#[derive(Debug)]
pub struct PeerManager {
    peers: Vec<Peer>,
}

impl View for PeerManager {
    type V = Seq<PeerView>;

    closed spec fn view(&self) -> Seq<PeerView> {
        peers_view(self.peers@)
    }
}

impl PeerManager {
    /// The index commited by joint consensus: the smaller of the quorum values of the new
    /// and of the old configuration.
    pub closed spec fn spec_quorum_match_index(
        peers: Seq<PeerView>,
        leader_state: ConfigurationState,
        leader_last_index: u64,
    ) -> u64 {
        min_u64(
            quorum_value(voter_match_indexes(peers, leader_state.in_new, leader_last_index, true)),
            quorum_value(voter_match_indexes(peers, leader_state.in_old, leader_last_index, false)),
        )
    }

    pub open spec fn spec_quorum_vote_granted(
        peers: Seq<PeerView>,
        leader_state: ConfigurationState,
    ) -> bool {
        side_grants(peers, leader_state.in_new, true) && side_grants(
            peers,
            leader_state.in_old,
            false,
        )
    }

    pub fn new() -> (pm: PeerManager)
        ensures
            pm@.len() == 0,
    {
        PeerManager { peers: Vec::new() }
    }

    /// Adds the given peers after the known ones.
    pub fn add_peers(&mut self, peers: Vec<Peer>)
        ensures
            final(self)@ == old(self)@ + peers_view(peers@),
    {
        let ghost added = peers_view(peers@);
        let mut peers = peers;
        self.peers.append(&mut peers);
        assert(self@ =~= old(self)@ + added);
    }

    /// The known peers, to be changed in place.
    pub fn peers_mut(&mut self) -> (r: &mut Vec<Peer>)
        ensures
            peers_view(r@) == old(self)@,
            final(self)@ == peers_view(final(r)@),
    {
        &mut self.peers
    }

    /// The known peers.
    pub fn peers(&self) -> (r: &Vec<Peer>)
        ensures
            peers_view(r@) == self@,
    {
        &self.peers
    }

    pub fn peers_num(&self) -> (n: usize)
        ensures
            n == self@.len(),
    {
        self.peers.len()
    }

    /// The ids of the known peers, in order.
    pub fn peer_server_ids(&self) -> (ids: Vec<u64>)
        ensures
            ids@ == self@.map_values(|p: PeerView| p.server_id),
    {
        let mut ids: Vec<u64> = Vec::new();
        let mut i: usize = 0;
        while i < self.peers.len()
            invariant
                i <= self.peers.len(),
                ids@.len() == i,
                forall|j: int| 0 <= j < i ==> ids@[j] == (#[trigger] self.peers@[j]).server_id,
            decreases self.peers.len() - i,
        {
            ids.push(self.peers[i].server_id);
            i = i + 1;
        }
        assert(ids@ =~= self@.map_values(|p: PeerView| p.server_id));
        ids
    }

    /// The first known peer with the given id, to be changed in place.
    pub fn peer(&mut self, server_id: u64) -> (r: Option<&mut Peer>)
        ensures
            match r {
                Some(p) => {
                    let i = first_peer_index(old(self)@, server_id);
                    &&& 0 <= i < old(self)@.len()
                    &&& p@ == old(self)@[i]
                    &&& final(self)@ == old(self)@.update(i, final(p)@)
                },
                None => first_peer_index(old(self)@, server_id) == -1 && final(self)@ == old(self)@,
            },
    {
        let mut i: usize = 0;
        while i < self.peers.len()
            invariant
                i <= self.peers.len(),
                *self == *old(self),
                forall|j: int| 0 <= j < i ==> self.peers@[j].server_id != server_id,
            decreases self.peers.len() - i,
        {
            if self.peers[i].server_id == server_id {
                proof {
                    lemma_first_peer_index(self@, server_id, i as int);
                }
                let p = &mut self.peers[i];
                return Some(p);
            }
            i = i + 1;
        }
        proof {
            lemma_no_peer_index(self@, server_id);
        }
        None
    }

    /// Whether a peer with the given id is known.
    pub fn contains(&self, server_id: u64) -> (b: bool)
        ensures
            b == (exists|i: int| 0 <= i < self@.len() && self@[i].server_id == server_id),
    {
        let mut i: usize = 0;
        while i < self.peers.len()
            invariant
                i <= self.peers.len(),
                forall|j: int| 0 <= j < i ==> self.peers@[j].server_id != server_id,
            decreases self.peers.len() - i,
        {
            if self.peers[i].server_id == server_id {
                assert(self@[i as int].server_id == server_id);
                return true;
            }
            i = i + 1;
        }
        false
    }

    /// Forgets the votes granted in an earlier election.
    pub fn reset_vote(&mut self)
        ensures
            final(self)@.len() == old(self)@.len(),
            forall|i: int|
                0 <= i < old(self)@.len() ==> (#[trigger] final(self)@[i]) == (PeerView {
                    vote_granted: false,
                    ..old(self)@[i]
                }),
    {
        let mut i: usize = 0;
        while i < self.peers.len()
            invariant
                i <= self.peers.len(),
                self.peers@.len() == old(self).peers@.len(),
                forall|j: int|
                    0 <= j < self.peers@.len() ==> (#[trigger] self.peers@[j])@ == (PeerView {
                        vote_granted: if j < i { false } else { old(self).peers@[j].vote_granted },
                        ..old(self).peers@[j]@
                    }),
            decreases self.peers.len() - i,
        {
            self.peers[i].vote_granted = false;
            i = i + 1;
        }
    }

    /// The largest log index that joint consensus holds committed: in each of the new and
    /// the old configuration, the largest index that a majority of its voters (the leader
    /// with its last index among them, when it belongs there) has matched; the smaller of
    /// the two.
    pub fn quorum_match_index(
        &self,
        leader_configuration_state: &ConfigurationState,
        leader_last_index: u64,
    ) -> (r: u64)
        ensures
            r == Self::spec_quorum_match_index(self@, *leader_configuration_state, leader_last_index),
    {
        let new_indexes = self.voter_match_indexes(leader_configuration_state.in_new, leader_last_index, true);
        let new_quorum_match_index = if new_indexes.len() == 0 {
            u64::MAX
        } else {
            majority_value(&new_indexes)
        };
        let old_indexes = self.voter_match_indexes(leader_configuration_state.in_old, leader_last_index, false);
        let old_quorum_match_index = if old_indexes.len() == 0 {
            u64::MAX
        } else {
            majority_value(&old_indexes)
        };
        if new_quorum_match_index <= old_quorum_match_index {
            new_quorum_match_index
        } else {
            old_quorum_match_index
        }
    }


    /// Position of the first peer with the given id, which must be known.
    pub fn peer_position(&self, server_id: u64) -> (i: usize)
        requires
            0 <= first_peer_index(self@, server_id),
        ensures
            i == first_peer_index(self@, server_id),
            i < self@.len(),
    {
        proof {
            lemma_first_peer_index_exists(self@, server_id);
        }
        let mut i: usize = 0;
        while i < self.peers.len()
            invariant
                i <= self.peers.len(),
                0 <= first_peer_index(self@, server_id) < self@.len(),
                self@[first_peer_index(self@, server_id)].server_id == server_id,
                forall|j: int| 0 <= j < i ==> self@[j].server_id != server_id,
            decreases self.peers.len() - i,
        {
            if self.peers[i].server_id == server_id {
                proof {
                    assert(self@[i as int].server_id == server_id);
                    lemma_first_peer_index(self@, server_id, i as int);
                }
                return i;
            }
            i = i + 1;
        }
        proof {
            let k = first_peer_index(self@, server_id);
            assert(self@[k].server_id != server_id);
        }
        0
    }

    /// The index that joint consensus would hold committed once the first peer with the
    /// given id has matched up to `match_index` (see `quorum_match_index`).
    pub fn quorum_match_index_after_match(
        &self,
        leader_configuration_state: &ConfigurationState,
        leader_last_index: u64,
        server_id: u64,
        match_index: u64,
    ) -> (r: u64)
        requires
            0 <= first_peer_index(self@, server_id),
            match_index < u64::MAX,
        ensures
            ({
                let i = first_peer_index(self@, server_id);
                r == Self::spec_quorum_match_index(
                    self@.update(
                        i,
                        PeerView { match_index, next_index: (match_index + 1) as u64, ..self@[i] },
                    ),
                    *leader_configuration_state,
                    leader_last_index,
                )
            }),
    {
        let k = self.peer_position(server_id);
        let mut copy: Vec<Peer> = Vec::new();
        let mut i: usize = 0;
        while i < self.peers.len()
            invariant
                i <= self.peers.len(),
                k < self.peers.len(),
                match_index < u64::MAX,
                copy@.len() == i,
                forall|j: int| 0 <= j < i ==> (#[trigger] copy@[j])@ == if j == k {
                    PeerView { match_index, next_index: (match_index + 1) as u64, ..self@[j] }
                } else {
                    self@[j]
                },
            decreases self.peers.len() - i,
        {
            let p = &self.peers[i];
            if i == k {
                copy.push(Peer {
                    server_id: p.server_id,
                    server_addr: p.server_addr.clone(),
                    next_index: match_index + 1,
                    match_index,
                    vote_granted: p.vote_granted,
                    configuration_state: p.configuration_state,
                });
            } else {
                copy.push(Peer {
                    server_id: p.server_id,
                    server_addr: p.server_addr.clone(),
                    next_index: p.next_index,
                    match_index: p.match_index,
                    vote_granted: p.vote_granted,
                    configuration_state: p.configuration_state,
                });
            }
            i = i + 1;
        }
        let manager = PeerManager { peers: copy };
        assert(manager@ =~= self@.update(
            k as int,
            PeerView { match_index, next_index: (match_index + 1) as u64, ..self@[k as int] },
        ));
        manager.quorum_match_index(leader_configuration_state, leader_last_index)
    }

    fn voter_match_indexes(&self, leader_in: bool, leader_last_index: u64, new_side: bool) -> (v: Vec<u64>)
        ensures
            v@ == voter_match_indexes(self@, leader_in, leader_last_index, new_side),
    {
        let mut v: Vec<u64> = Vec::new();
        if leader_in {
            v.push(leader_last_index);
        }
        let ghost own = v@;
        let mut i: usize = 0;
        while i < self.peers.len()
            invariant
                i <= self.peers.len(),
                own == (if leader_in { seq![leader_last_index] } else { Seq::<u64>::empty() }),
                v@ == own + peer_match_indexes(self@.take(i as int), new_side),
            decreases self.peers.len() - i,
        {
            assert(self@.take(i + 1).drop_last() =~= self@.take(i as int));
            let p = &self.peers[i];
            let on = if new_side { p.configuration_state.in_new } else { p.configuration_state.in_old };
            if on {
                v.push(p.match_index);
            }
            i = i + 1;
            assert(v@ =~= own + peer_match_indexes(self@.take(i as int), new_side));
        }
        assert(self@.take(i as int) =~= self@);
        v
    }

    /// Whether the candidate won the election under joint consensus: in each of the new
    /// and the old configuration, more than half of the voters (the candidate itself
    /// counted, when it belongs there) granted their vote, or the configuration is empty.
    pub fn quorum_vote_granted(&self, leader_configuration_state: &ConfigurationState) -> (b: bool)
        ensures
            b == Self::spec_quorum_vote_granted(self@, *leader_configuration_state),
    {
        let mut total_new_servers: u128 = 0;
        let mut granted_new_servers: u128 = 0;
        let mut total_old_servers: u128 = 0;
        let mut granted_old_servers: u128 = 0;
        if leader_configuration_state.in_new {
            total_new_servers = total_new_servers + 1;
            granted_new_servers = granted_new_servers + 1;
        }
        if leader_configuration_state.in_old {
            total_old_servers = total_old_servers + 1;
            granted_old_servers = granted_old_servers + 1;
        }
        let ghost own_new: nat = if leader_configuration_state.in_new { 1 } else { 0 };
        let ghost own_old: nat = if leader_configuration_state.in_old { 1 } else { 0 };
        let mut i: usize = 0;
        while i < self.peers.len()
            invariant
                i <= self.peers.len(),
                own_new == (if leader_configuration_state.in_new { 1nat } else { 0nat }),
                own_old == (if leader_configuration_state.in_old { 1nat } else { 0nat }),
                total_new_servers == own_new + count_on_side(self@.take(i as int), true, false),
                granted_new_servers == own_new + count_on_side(self@.take(i as int), true, true),
                total_old_servers == own_old + count_on_side(self@.take(i as int), false, false),
                granted_old_servers == own_old + count_on_side(self@.take(i as int), false, true),
                total_new_servers <= i + 1,
                granted_new_servers <= i + 1,
                total_old_servers <= i + 1,
                granted_old_servers <= i + 1,
            decreases self.peers.len() - i,
        {
            assert(self@.take(i + 1).drop_last() =~= self@.take(i as int));
            let p = &self.peers[i];
            if p.configuration_state.in_new {
                total_new_servers = total_new_servers + 1;
                if p.vote_granted {
                    granted_new_servers = granted_new_servers + 1;
                }
            }
            if p.configuration_state.in_old {
                total_old_servers = total_old_servers + 1;
                if p.vote_granted {
                    granted_old_servers = granted_old_servers + 1;
                }
            }
            i = i + 1;
        }
        assert(self@.take(i as int) =~= self@);
        let new_servers_quorum = total_new_servers == 0 || granted_new_servers > total_new_servers / 2;
        let old_servers_quorum = total_old_servers == 0 || granted_old_servers > total_old_servers / 2;
        new_servers_quorum && old_servers_quorum
    }
}

} // verus!
