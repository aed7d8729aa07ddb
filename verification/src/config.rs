//! Cluster membership: the joint configuration (Cold,new) and the new one (Cnew).
use vstd::prelude::*;
use crate::peer;
use crate::proto;

verus! {

/// Highest election timeout, in milliseconds.
pub const ELECTION_TIMEOUT_MAX_MILLIS: u64 = 15000;
/// Lowest election timeout, in milliseconds.
pub const ELECTION_TIMEOUT_MIN_MILLIS: u64 = 10000;
/// Interval between two heartbeats, in milliseconds.
pub const HEARTBEAT_INTERVAL_MILLIS: u64 = 3000;
/// Interval between two snapshots, in milliseconds.
pub const SNAPSHOT_INTERVAL_MILLIS: u64 = 30000;
/// The server id that stands for "no server".
pub const NONE_SERVER_ID: u64 = 0;

/// The payload of the entry that a new leader appends.
pub fn none_data() -> (r: Vec<u8>)
    ensures
        r@ == seq![78u8, 111u8, 110u8, 101u8],
{
    let mut r: Vec<u8> = Vec::new();
    r.push(78u8);
    r.push(111u8);
    r.push(110u8);
    r.push(101u8);
    r
}

/// Whether a server belongs to the new configuration, to the old one, or to both.
#[derive(Debug, PartialEq, Eq, Clone, Copy, Structural)]
pub struct ConfigurationState {
    pub in_new: bool,
    pub in_old: bool,
}

impl ConfigurationState {
    /// Outside a membership change a server is in the new configuration only.
    pub fn new() -> (r: ConfigurationState)
        ensures
            r.in_new,
            !r.in_old,
    {
        ConfigurationState { in_new: true, in_old: false }
    }
}

/// A server id together with its address.
#[derive(Debug, PartialEq)]
pub struct ServerInfo(pub u64, pub String);

impl View for ServerInfo {
    type V = (u64, Seq<char>);

    open spec fn view(&self) -> (u64, Seq<char>) {
        (self.0, self.1@)
    }
}

pub open spec fn servers_view(s: Seq<ServerInfo>) -> Seq<(u64, Seq<char>)> {
    s.map_values(|x: ServerInfo| x@)
}

pub open spec fn pairs_view(s: Seq<(u64, String)>) -> Seq<(u64, Seq<char>)> {
    s.map_values(|x: (u64, String)| (x.0, x.1@))
}

/// Mathematical value of a configuration.
pub struct ConfigurationView {
    pub old_servers: Seq<(u64, Seq<char>)>,
    pub new_servers: Seq<(u64, Seq<char>)>,
}

impl ConfigurationView {
    /// A joint configuration (Cold,new) names both an old and a new set of servers.
    pub open spec fn is_joint(self) -> bool {
        self.old_servers.len() > 0 && self.new_servers.len() > 0
    }

    pub open spec fn state_of(self, server_id: u64) -> ConfigurationState {
        ConfigurationState {
            in_new: exists|i: int| 0 <= i < self.new_servers.len() && self.new_servers[i].0 == server_id,
            in_old: exists|i: int| 0 <= i < self.old_servers.len() && self.old_servers[i].0 == server_id,
        }
    }
}

#[derive(Debug, PartialEq)]
pub struct Configuration {
    pub old_servers: Vec<ServerInfo>,
    pub new_servers: Vec<ServerInfo>,
}

impl View for Configuration {
    type V = ConfigurationView;

    open spec fn view(&self) -> ConfigurationView {
        ConfigurationView {
            old_servers: servers_view(self.old_servers@),
            new_servers: servers_view(self.new_servers@),
        }
    }
}

/// What `bincode::serialize` returns on the pair of server lists (old, new).
pub uninterp spec fn bincode_servers_encoding(
    old: Seq<(u64, Seq<char>)>,
    new: Seq<(u64, Seq<char>)>,
) -> Seq<u8>;

/// What `bincode::deserialize` gives back from bytes as a pair of server lists, or `None`
/// when the bytes are not such an encoding.
pub uninterp spec fn bincode_servers_decoding(bytes: Seq<u8>) -> Option<
    (Seq<(u64, Seq<char>)>, Seq<(u64, Seq<char>)>),
>;

/// The configuration that bytes encode, if they encode one.
pub open spec fn decoded_configuration(bytes: Seq<u8>) -> Option<ConfigurationView> {
    match bincode_servers_decoding(bytes) {
        Some(p) => Some(ConfigurationView { old_servers: p.0, new_servers: p.1 }),
        None => None,
    }
}

/// The bytes that encode a configuration.
pub open spec fn encoded_configuration(c: ConfigurationView) -> Seq<u8> {
    bincode_servers_encoding(c.old_servers, c.new_servers)
}

/// Calls `bincode::serialize` on the pair (old, new) of server lists.
/// Its result is named by `bincode_servers_encoding`; the contract also claims that
/// `bincode::deserialize` gives the same pair back from these bytes.  `serialize` cannot
/// fail on vectors of `(u64, String)`: their lengths are known and no size limit is set.
#[verifier::external_body]
fn bincode_serialize_servers(old: &Vec<(u64, String)>, new: &Vec<(u64, String)>) -> (bytes: Vec<u8>)
    ensures
        bytes@ == bincode_servers_encoding(pairs_view(old@), pairs_view(new@)),
        bincode_servers_decoding(bytes@) == Some((pairs_view(old@), pairs_view(new@))),
{
    match bincode::serialize(&(old, new)) {
        Ok(bytes) => bytes,
        Err(_) => Vec::new(),
    }
}

/// Calls `bincode::deserialize` for a pair of server lists; its result is named by
/// `bincode_servers_decoding`.
#[verifier::external_body]
fn bincode_deserialize_servers(bytes: &Vec<u8>) -> (r: Option<(Vec<(u64, String)>, Vec<(u64, String)>)>)
    ensures
        match r {
            Some(p) => bincode_servers_decoding(bytes@) == Some((pairs_view(p.0@), pairs_view(p.1@))),
            None => bincode_servers_decoding(bytes@) is None,
        },
{
    bincode::deserialize::<(Vec<(u64, String)>, Vec<(u64, String)>)>(bytes.as_slice()).ok()
}

fn servers_to_pairs(servers: &Vec<ServerInfo>) -> (r: Vec<(u64, String)>)
    ensures
        pairs_view(r@) == servers_view(servers@),
{
    let mut r: Vec<(u64, String)> = Vec::new();
    let mut i: usize = 0;
    while i < servers.len()
        invariant
            i <= servers.len(),
            r@.len() == i,
            forall|j: int| 0 <= j < i ==> (#[trigger] r@[j]).0 == servers@[j].0 && r@[j].1@ == servers@[j].1@,
        decreases servers.len() - i,
    {
        r.push((servers[i].0, servers[i].1.clone()));
        i = i + 1;
    }
    assert(pairs_view(r@) =~= servers_view(servers@));
    r
}

fn pairs_to_servers(pairs: Vec<(u64, String)>) -> (r: Vec<ServerInfo>)
    ensures
        servers_view(r@) == pairs_view(pairs@),
{
    let mut r: Vec<ServerInfo> = Vec::new();
    let mut i: usize = 0;
    while i < pairs.len()
        invariant
            i <= pairs.len(),
            r@.len() == i,
            forall|j: int| 0 <= j < i ==> (#[trigger] r@[j]).0 == pairs@[j].0 && r@[j].1@ == pairs@[j].1@,
        decreases pairs.len() - i,
    {
        r.push(ServerInfo(pairs[i].0, pairs[i].1.clone()));
        i = i + 1;
    }
    assert(servers_view(r@) =~= pairs_view(pairs@));
    r
}

/// A copy of a list of servers with the same contents.
pub fn copy_servers(servers: &Vec<ServerInfo>) -> (r: Vec<ServerInfo>)
    ensures
        servers_view(r@) == servers_view(servers@),
{
    let mut r: Vec<ServerInfo> = Vec::new();
    let mut i: usize = 0;
    while i < servers.len()
        invariant
            i <= servers.len(),
            r@.len() == i,
            forall|j: int| 0 <= j < i ==> (#[trigger] r@[j])@ == servers@[j]@,
        decreases servers.len() - i,
    {
        r.push(ServerInfo(servers[i].0, servers[i].1.clone()));
        i = i + 1;
    }
    assert(servers_view(r@) =~= servers_view(servers@));
    r
}

fn contains_server(servers: &Vec<ServerInfo>, server_id: u64) -> (b: bool)
    ensures
        b == exists|i: int| 0 <= i < servers@.len() && servers@[i].0 == server_id,
{
    let mut i: usize = 0;
    while i < servers.len()
        invariant
            i <= servers.len(),
            forall|j: int| 0 <= j < i ==> servers@[j].0 != server_id,
        decreases servers.len() - i,
    {
        if servers[i].0 == server_id {
            return true;
        }
        i = i + 1;
    }
    false
}

impl Configuration {
    /// An empty configuration.
    pub fn new() -> (c: Configuration)
        ensures
            c@.old_servers.len() == 0,
            c@.new_servers.len() == 0,
    {
        Configuration { old_servers: Vec::new(), new_servers: Vec::new() }
    }

    /// Decodes a configuration from bytes that encode one.
    pub fn from_data(data: &Vec<u8>) -> (c: Configuration)
        requires
            decoded_configuration(data@) is Some,
        ensures
            decoded_configuration(data@) == Some(c@),
    {
        match bincode_deserialize_servers(data) {
            Some(pair) => {
                let (old, new) = pair;
                Configuration { old_servers: pairs_to_servers(old), new_servers: pairs_to_servers(new) }
            },
            None => {
                proof {
                    assert(false);
                }
                Configuration::new()
            },
        }
    }

    /// Decodes a configuration from bytes, or gives `None` where they encode none.
    pub fn try_from_data(data: &Vec<u8>) -> (c: Option<Configuration>)
        ensures
            match c {
                Some(c) => decoded_configuration(data@) == Some(c@),
                None => decoded_configuration(data@) is None,
            },
    {
        match bincode_deserialize_servers(data) {
            Some(_) => Some(Configuration::from_data(data)),
            None => None,
        }
    }

    /// Encodes this configuration; decoding the bytes gives it back.
    pub fn to_data(&self) -> (data: Vec<u8>)
        ensures
            data@ == encoded_configuration(self@),
            decoded_configuration(data@) == Some(self@),
    {
        let old = servers_to_pairs(&self.old_servers);
        let new = servers_to_pairs(&self.new_servers);
        bincode_serialize_servers(&old, &new)
    }

    /// Adds the given servers to the new configuration, in order.
    pub fn append_new_servers(&mut self, new_servers: &Vec<proto::Server>)
        ensures
            final(self)@.old_servers == old(self)@.old_servers,
            final(self)@.new_servers == old(self)@.new_servers + new_servers@.map_values(
                |s: proto::Server| (s.server_id, s.server_addr@),
            ),
    {
        let ghost start = self@.new_servers;
        let mut i: usize = 0;
        while i < new_servers.len()
            invariant
                i <= new_servers.len(),
                self@.old_servers == old(self)@.old_servers,
                self@.new_servers == start + new_servers@.take(i as int).map_values(
                    |s: proto::Server| (s.server_id, s.server_addr@),
                ),
            decreases new_servers.len() - i,
        {
            let server = &new_servers[i];
            let ghost prev = self@.new_servers;
            self.new_servers.push(ServerInfo(server.server_id, server.server_addr.clone()));
            assert(self@.new_servers =~= prev.push((server.server_id, server.server_addr@)));
            assert(new_servers@.take(i + 1).map_values(|s: proto::Server| (s.server_id, s.server_addr@))
                =~= new_servers@.take(i as int).map_values(|s: proto::Server| (s.server_id, s.server_addr@)).push(
                (server.server_id, server.server_addr@)));
            i = i + 1;
        }
        assert(new_servers@.take(i as int) =~= new_servers@);
    }

    /// Adds the given peers to the old configuration, in order.
    pub fn append_old_peers(&mut self, peers: &Vec<peer::Peer>)
        ensures
            final(self)@.new_servers == old(self)@.new_servers,
            final(self)@.old_servers == old(self)@.old_servers + peers@.map_values(
                |p: peer::Peer| (p.server_id, p.server_addr@),
            ),
    {
        let ghost start = self@.old_servers;
        let mut i: usize = 0;
        while i < peers.len()
            invariant
                i <= peers.len(),
                self@.new_servers == old(self)@.new_servers,
                self@.old_servers == start + peers@.take(i as int).map_values(
                    |p: peer::Peer| (p.server_id, p.server_addr@),
                ),
            decreases peers.len() - i,
        {
            let p = &peers[i];
            let ghost prev = self@.old_servers;
            self.old_servers.push(ServerInfo(p.server_id, p.server_addr.clone()));
            assert(self@.old_servers =~= prev.push((p.server_id, p.server_addr@)));
            assert(peers@.take(i + 1).map_values(|p: peer::Peer| (p.server_id, p.server_addr@))
                =~= peers@.take(i as int).map_values(|p: peer::Peer| (p.server_id, p.server_addr@)).push(
                (p.server_id, p.server_addr@)));
            i = i + 1;
        }
        assert(peers@.take(i as int) =~= peers@);
    }

    /// From a joint configuration Cold,new, the configuration Cnew: no old servers and
    /// the same new ones.
    pub fn gen_new_configuration(&self) -> (c: Configuration)
        requires
            self@.is_joint(),
        ensures
            c@.old_servers.len() == 0,
            c@.new_servers == self@.new_servers,
    {
        Configuration { old_servers: Vec::new(), new_servers: copy_servers(&self.new_servers) }
    }

    /// Whether a server is in the new and in the old set of this configuration.
    pub fn query_configuration_state(&self, server_id: u64) -> (s: ConfigurationState)
        ensures
            s == self@.state_of(server_id),
    {
        let in_new = contains_server(&self.new_servers, server_id);
        let in_old = contains_server(&self.old_servers, server_id);
        proof {
            assert(in_new == exists|i: int| 0 <= i < self@.new_servers.len() && self@.new_servers[i].0 == server_id) by {
                if in_new {
                    let i = choose|i: int| 0 <= i < self.new_servers@.len() && self.new_servers@[i].0 == server_id;
                    assert(self@.new_servers[i].0 == server_id);
                }
            }
            assert(in_old == exists|i: int| 0 <= i < self@.old_servers.len() && self@.old_servers[i].0 == server_id) by {
                if in_old {
                    let i = choose|i: int| 0 <= i < self.old_servers@.len() && self.old_servers@[i].0 == server_id;
                    assert(self@.old_servers[i].0 == server_id);
                }
            }
        }
        ConfigurationState { in_new, in_old }
    }
}

} // verus!
