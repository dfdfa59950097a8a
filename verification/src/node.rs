//! The state of one DHT node and what it does with each query it receives.

use std::collections::HashMap;

use vstd::prelude::*;

use crate::bucket::{first_entry_with_id, first_with_id, BUCKET_SIZE};
use crate::closest::{closest_entries, closest_k};
use crate::dht_methods::{
    node_info_of, node_infos, peer_infos, to_node_infos, to_peer_infos, FindNodeResponse,
    GetPeersResult, NodeInfo,
};
use crate::routing_table::{
    all_entries, covers, inserted, removed, RoutingTable, RoutingTableEntry,
};

verus! {

broadcast use vstd::std_specs::hash::group_hash_axioms;

/// A uniformly random `u128`, drawn from the thread-local generator.
///
/// Trusted: calls `rand::random::<u128>()`. Nothing is claimed of the value:
/// every `u128` may come back.
#[verifier::external_body]
fn random_u128() -> u128 {
    rand::random::<u128>()
}

/// The peers known for `info_hash` (none when it is unknown).
pub open spec fn peers_of(m: Map<u128, Seq<u64>>, info_hash: u128) -> Seq<u64> {
    if m.contains_key(info_hash) {
        m[info_hash]
    } else {
        Seq::empty()
    }
}

/// The peer lists after `addr` announces itself for `info_hash`: it is
/// appended to that list (created if needed); other lists stay.
pub open spec fn announced(m: Map<u128, Seq<u64>>, info_hash: u128, addr: u64) -> Map<
    u128,
    Seq<u64>,
> {
    m.insert(info_hash, peers_of(m, info_hash).push(addr))
}

/// A DHT node: its id, its routing table, and for each info hash the
/// handles of the peers that announced it.
pub struct Node {
    pub node_id: u128,
    pub routing_table: RoutingTable,
    pub peers: HashMap<u128, Vec<u64>>,
}

impl Node {
    /// The routing table is well formed.
    pub open spec fn wf(&self) -> bool {
        self.routing_table.wf()
    }

    /// The peer lists, as sequences of address handles.
    pub open spec fn peers_view(&self) -> Map<u128, Seq<u64>> {
        self.peers@.map_values(|v: Vec<u64>| v@)
    }

    /// A node with a random id, an empty routing table for it and no peers.
    pub fn new() -> (n: Node)
        ensures
            n.wf(),
            n.routing_table.parent() == n.node_id,
            n.routing_table@ == seq![crate::bucket::BucketView { min: 0, max: u128::MAX, nodes: Seq::empty() }],
            n.peers_view() == Map::<u128, Seq<u64>>::empty(),
    {
        let node_id = random_u128();
        let n = Node { node_id, routing_table: RoutingTable::new(node_id), peers: HashMap::new() };
        assert(n.peers_view() =~= Map::<u128, Seq<u64>>::empty());
        n
    }

    /// The answer to `ping`: this node's id.
    pub fn ping(&self) -> (r: u128)
        ensures
            r == self.node_id,
    {
        self.node_id
    }

    /// The answer to `find_node(target)`: the contact with that id when the
    /// table holds one (the first in table order), else the `BUCKET_SIZE`
    /// (K = 8) contacts of the whole table nearest to `target` by XOR
    /// distance, nearest first (all of them when there are fewer).
    pub fn find_node(&self, target: u128) -> (r: FindNodeResponse)
        ensures
            ({
                let all = all_entries(self.routing_table@);
                match r {
                    FindNodeResponse::Exact(n) => first_with_id(all, target) is Some && n
                        == node_info_of(first_with_id(all, target)->0),
                    FindNodeResponse::Closest(ns) => first_with_id(all, target) is None && ns@
                        == node_infos(closest_k(all, target, BUCKET_SIZE as nat)),
                }
            }),
    {
        let all = self.routing_table.entries();
        match first_entry_with_id(&all, target) {
            Some(entry) => FindNodeResponse::Exact(NodeInfo(entry.node_id, entry.address)),
            None => {
                let closest = closest_entries(&all, target, BUCKET_SIZE);
                FindNodeResponse::Closest(to_node_infos(&closest))
            },
        }
    }

    /// The answer to `get_peers(info_hash)`: the peers that announced it
    /// when there are any, else the `BUCKET_SIZE` (K = 8) contacts of the
    /// whole table nearest to `info_hash` by XOR distance, nearest first.
    pub fn get_peers(&self, info_hash: u128) -> (r: GetPeersResult)
        ensures
            match r {
                GetPeersResult::Values(ps) => self.peers_view().contains_key(info_hash) && ps@
                    == peer_infos(self.peers_view()[info_hash]),
                GetPeersResult::Nodes(ns) => !self.peers_view().contains_key(info_hash) && ns@
                    == node_infos(
                    closest_k(all_entries(self.routing_table@), info_hash, BUCKET_SIZE as nat),
                ),
            },
    {
        match self.peers.get(&info_hash) {
            Some(peers) => GetPeersResult::Values(to_peer_infos(peers)),
            None => {
                let all = self.routing_table.entries();
                let closest = closest_entries(&all, info_hash, BUCKET_SIZE);
                GetPeersResult::Nodes(to_node_infos(&closest))
            },
        }
    }

    /// Records that the peer `addr` has the file `info_hash` (an
    /// `announce_peer`, or a peer added by hand).
    pub fn announce_peer(&mut self, info_hash: u128, addr: u64)
        ensures
            final(self).peers_view() == announced(old(self).peers_view(), info_hash, addr),
            final(self).node_id == old(self).node_id,
            final(self).routing_table == old(self).routing_table,
    {
        let ghost before = self.peers_view();
        let mut list = match self.peers.remove(&info_hash) {
            Some(v) => v,
            None => Vec::new(),
        };
        assert(list@ == peers_of(before, info_hash));
        list.push(addr);
        self.peers.insert(info_hash, list);
        assert(self.peers_view() =~= announced(before, info_hash, addr));
    }

    /// Adds a contact to the routing table.
    pub fn add_route(&mut self, node_id: u128, address: u64)
        requires
            old(self).wf(),
            covers(old(self).routing_table@, node_id),
        ensures
            final(self).wf(),
            final(self).routing_table.parent() == old(self).routing_table.parent(),
            final(self).routing_table@ == inserted(
                old(self).routing_table@,
                old(self).routing_table.parent(),
                RoutingTableEntry { node_id, address },
            ),
            final(self).node_id == old(self).node_id,
            final(self).peers_view() == old(self).peers_view(),
    {
        self.routing_table.insert(RoutingTableEntry { node_id, address });
    }

    /// Drops every contact with id `node_id` from the routing table.
    pub fn remove_route(&mut self, node_id: u128)
        requires
            old(self).wf(),
        ensures
            final(self).wf(),
            final(self).routing_table.parent() == old(self).routing_table.parent(),
            final(self).routing_table@ == removed(old(self).routing_table@, node_id),
            final(self).node_id == old(self).node_id,
            final(self).peers_view() == old(self).peers_view(),
    {
        self.routing_table.remove(node_id);
    }
}

/// Read after write on peers: after `addr` announces `info_hash`, the peers
/// known for it are those known before followed by `addr`, and the peers of
/// every other info hash are unchanged.
pub proof fn law_peers_after_announce(m: Map<u128, Seq<u64>>, info_hash: u128, addr: u64, other: u128)
    ensures
        announced(m, info_hash, addr).contains_key(info_hash),
        peers_of(announced(m, info_hash, addr), info_hash) == peers_of(m, info_hash).push(addr),
        other != info_hash ==> peers_of(announced(m, info_hash, addr), other) == peers_of(m, other),
{
}

} // verus!
