//! The values that BEP-0005 queries carry and answer with: compact peer and
//! node contact information, and the two answers a node can give.

use vstd::prelude::*;

use crate::routing_table::RoutingTableEntry;

verus! {

/// Contact information for a peer: the handle of its address.
#[derive(Clone, Copy, PartialEq, Eq, Structural, Debug)]
pub struct PeerInfo(pub u64);

/// Contact information for a node: its id and the handle of its address.
#[derive(Clone, Copy, PartialEq, Eq, Structural, Debug)]
pub struct NodeInfo(pub u128, pub u64);

impl From<RoutingTableEntry> for PeerInfo {
    fn from(entry: RoutingTableEntry) -> (r: PeerInfo) {
        PeerInfo(entry.address)
    }
}

impl vstd::std_specs::convert::FromSpecImpl<RoutingTableEntry> for PeerInfo {
    open spec fn obeys_from_spec() -> bool {
        true
    }

    open spec fn from_spec(entry: RoutingTableEntry) -> PeerInfo {
        PeerInfo(entry.address)
    }
}

impl From<RoutingTableEntry> for NodeInfo {
    fn from(entry: RoutingTableEntry) -> (r: NodeInfo) {
        NodeInfo(entry.node_id, entry.address)
    }
}

impl vstd::std_specs::convert::FromSpecImpl<RoutingTableEntry> for NodeInfo {
    open spec fn obeys_from_spec() -> bool {
        true
    }

    open spec fn from_spec(entry: RoutingTableEntry) -> NodeInfo {
        node_info_of(entry)
    }
}

/// The node contact of a routing entry.
pub open spec fn node_info_of(e: RoutingTableEntry) -> NodeInfo {
    NodeInfo(e.node_id, e.address)
}

/// The node contacts of routing entries, in order.
pub open spec fn node_infos(s: Seq<RoutingTableEntry>) -> Seq<NodeInfo> {
    s.map_values(|e: RoutingTableEntry| node_info_of(e))
}

/// The peer contacts of address handles, in order.
pub open spec fn peer_infos(s: Seq<u64>) -> Seq<PeerInfo> {
    s.map_values(|a: u64| PeerInfo(a))
}

/// Every address handle gives one peer contact, in the same place: as many
/// contacts as handles, the `i`-th holding the `i`-th handle.
pub proof fn law_peer_infos(s: Seq<u64>)
    ensures
        peer_infos(s).len() == s.len(),
        forall|i: int| 0 <= i < s.len() ==> #[trigger] peer_infos(s)[i] == PeerInfo(s[i]),
{
}

/// Every routing entry gives one node contact, in the same place, with the
/// entry's id and address.
pub proof fn law_node_infos(s: Seq<RoutingTableEntry>)
    ensures
        node_infos(s).len() == s.len(),
        forall|i: int|
            0 <= i < s.len() ==> #[trigger] node_infos(s)[i] == NodeInfo(s[i].node_id, s[i].address),
{
}

/// The answer to `find_node`: the sought node itself, or the contacts of the
/// bucket closest to it.
#[derive(Debug, PartialEq, Eq)]
pub enum FindNodeResponse {
    Exact(NodeInfo),
    Closest(Vec<NodeInfo>),
}

/// The answer to `get_peers`: the peers known for the info hash, or the
/// contacts of the bucket closest to it.
#[derive(Debug, PartialEq, Eq)]
pub enum GetPeersResult {
    Values(Vec<PeerInfo>),
    Nodes(Vec<NodeInfo>),
}

/// The node contacts of routing entries, in order.
pub fn to_node_infos(entries: &Vec<RoutingTableEntry>) -> (r: Vec<NodeInfo>)
    ensures
        r@ == node_infos(entries@),
        r@.len() == entries@.len(),
        forall|i: int|
            0 <= i < entries@.len() ==> #[trigger] r@[i] == NodeInfo(
                entries@[i].node_id,
                entries@[i].address,
            ),
{
    let mut r: Vec<NodeInfo> = Vec::with_capacity(entries.len());
    for k in 0..entries.len()
        invariant
            r@ == node_infos(entries@.take(k as int)),
    {
        let e = entries[k];
        r.push(NodeInfo(e.node_id, e.address));
        assert(node_infos(entries@.take(k + 1)) =~= node_infos(entries@.take(k as int)).push(
            node_info_of(e),
        ));
    }
    assert(entries@.take(entries.len() as int) =~= entries@);
    proof {
        law_node_infos(entries@);
    }
    r
}

/// The peer contacts of address handles, in order.
pub fn to_peer_infos(addresses: &Vec<u64>) -> (r: Vec<PeerInfo>)
    ensures
        r@ == peer_infos(addresses@),
        r@.len() == addresses@.len(),
        forall|i: int| 0 <= i < addresses@.len() ==> #[trigger] r@[i] == PeerInfo(addresses@[i]),
{
    let mut r: Vec<PeerInfo> = Vec::with_capacity(addresses.len());
    for k in 0..addresses.len()
        invariant
            r@ == peer_infos(addresses@.take(k as int)),
    {
        r.push(PeerInfo(addresses[k]));
        assert(peer_infos(addresses@.take(k + 1)) =~= peer_infos(addresses@.take(k as int)).push(
            PeerInfo(addresses@[k as int]),
        ));
    }
    assert(addresses@.take(addresses.len() as int) =~= addresses@);
    proof {
        law_peer_infos(addresses@);
    }
    r
}

} // verus!
