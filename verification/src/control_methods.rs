//! The decisions behind the two test-control operations: downloading a file
//! (a search through the DHT for peers, nearest candidate first) and
//! announcing one (two hops towards the info hash).
//!
//! The network work itself (sending queries, awaiting replies) happens
//! outside; these functions take each reply and say what to do next.

use std::collections::BTreeSet;

use vstd::prelude::*;

use crate::bucket::BUCKET_SIZE;
use crate::closest::{closest_entries, closest_k};
use crate::dht_methods::{
    node_info_of, node_infos, to_node_infos, FindNodeResponse, GetPeersResult, NodeInfo, PeerInfo,
};
use crate::node::Node;
use crate::routing_table::{all_entries, RoutingTableEntry};

verus! {

broadcast use {vstd::std_specs::btree::group_btree_axioms, vstd::laws_cmp::group_laws_cmp};

/// A candidate to query: its XOR distance to the searching node, and its contact.
pub type Candidate = (u128, NodeInfo);

/// Index of the first candidate with the smallest distance (0 when empty).
pub open spec fn min_index(s: Seq<Candidate>) -> int
    decreases s.len(),
{
    if s.len() <= 1 {
        0
    } else {
        let k = min_index(s.drop_last());
        if s.last().0 < s[k].0 {
            s.len() - 1
        } else {
            k
        }
    }
}

/// `min_index` points at a candidate whose distance no other candidate undercuts.
pub proof fn lemma_min_index(s: Seq<Candidate>)
    requires
        s.len() > 0,
    ensures
        0 <= min_index(s) < s.len(),
        forall|j: int| 0 <= j < s.len() ==> s[min_index(s)].0 <= (#[trigger] s[j]).0,
    decreases s.len(),
{
    if s.len() > 1 {
        let d = s.drop_last();
        lemma_min_index(d);
        let k = min_index(d);
        assert(s[k] == d[k]);
        assert forall|j: int| 0 <= j < s.len() implies s[min_index(s)].0 <= (#[trigger] s[j]).0 by {
            if j < d.len() {
                assert(s[j] == d[j]);
            }
        }
    }
}

/// What the next step of a search yields from the pending candidates and
/// the distances already visited: the nearest pending candidate (the first
/// one among equals) is taken out; when its distance was visited it is
/// dropped and the step repeats; otherwise it is the next one to query.
/// `None` once nothing is pending. The second component is what stays pending.
pub open spec fn next_step(pending: Seq<Candidate>, visited: Set<u128>) -> (Option<Candidate>, Seq<
    Candidate,
>)
    decreases pending.len(),
{
    if pending.len() == 0 {
        (None, pending)
    } else {
        let k = min_index(pending);
        proof {
            lemma_min_index(pending);
        }
        let c = pending[k];
        let rest = pending.remove(k);
        if visited.contains(c.0) {
            next_step(rest, visited)
        } else {
            (Some(c), rest)
        }
    }
}

/// The candidates for contacts, each with its distance to `node_id`.
pub open spec fn candidates_of(node_id: u128, s: Seq<NodeInfo>) -> Seq<Candidate> {
    s.map_values(|n: NodeInfo| (node_id ^ n.0, n))
}

/// The routing entry of a contact.
pub open spec fn entry_of(n: NodeInfo) -> RoutingTableEntry {
    RoutingTableEntry { node_id: n.0, address: n.1 }
}

/// What to do after a `get_peers` query has been answered (or not).
#[derive(Debug, PartialEq, Eq)]
pub enum DownloadStep {
    /// The queried node did not answer: drop the node with this id from the
    /// routing table.
    RemoveRoute(u128),
    /// The queried node knows peers: announce this node (`announce_peer`) to
    /// the nodes in `announce_to`, contact each peer, and stop. BEP-0005 has
    /// a downloader insert its own contact into the responding nodes closest
    /// to the info hash (`announce_peer` carries the token that a node hands
    /// out in its answer to `get_peers`), so `announce_to` lists nodes that
    /// answered this search; the next downloader then finds this node even
    /// when the first peer has left the network.
    Announce { announce_to: Vec<NodeInfo>, peers: Vec<PeerInfo> },
    /// The queried node gave contacts: query the next candidate.
    Continue,
}

/// The state of a search for the peers of `info_hash`, run by `node_id`.
pub struct DownloadSearch {
    pub node_id: u128,
    pub info_hash: u128,
    /// Candidates still to query, each with its distance to `node_id`.
    pub should_visit: Vec<Candidate>,
    /// Distances already queried.
    pub visited: BTreeSet<u128>,
    /// The nodes that answered a query, in the order they answered.
    pub answered: Vec<RoutingTableEntry>,
}

impl DownloadSearch {
    /// A search that starts from the given contacts of the routing table.
    pub fn start(node_id: u128, info_hash: u128, closest: &Vec<RoutingTableEntry>) -> (s: DownloadSearch)
        ensures
            s.node_id == node_id,
            s.info_hash == info_hash,
            s.should_visit@ == candidates_of(
                node_id,
                closest@.map_values(|e: RoutingTableEntry| node_info_of(e)),
            ),
            s.visited@ == Set::<u128>::empty(),
            s.answered@ == Seq::<RoutingTableEntry>::empty(),
    {
        let mut should_visit: Vec<Candidate> = Vec::with_capacity(closest.len());
        let ghost infos = closest@.map_values(|e: RoutingTableEntry| node_info_of(e));
        for k in 0..closest.len()
            invariant
                infos == closest@.map_values(|e: RoutingTableEntry| node_info_of(e)),
                should_visit@ == candidates_of(node_id, infos.take(k as int)),
        {
            let e = closest[k];
            should_visit.push((node_id ^ e.node_id, NodeInfo(e.node_id, e.address)));
            assert(candidates_of(node_id, infos.take(k + 1)) =~= candidates_of(
                node_id,
                infos.take(k as int),
            ).push((node_id ^ e.node_id, NodeInfo(e.node_id, e.address))));
        }
        assert(infos.take(closest.len() as int) =~= infos);
        DownloadSearch {
            node_id,
            info_hash,
            should_visit,
            visited: BTreeSet::new(),
            answered: Vec::new(),
        }
    }

    /// Takes the next candidate to query, as [`next_step`] describes, and
    /// records its distance as visited. `None` ends the search unsuccessfully.
    pub fn next_target(&mut self) -> (r: Option<Candidate>)
        ensures
            (r, final(self).should_visit@) == next_step(old(self).should_visit@, old(self).visited@),
            final(self).visited@ == (match r {
                Some(c) => old(self).visited@.insert(c.0),
                None => old(self).visited@,
            }),
            final(self).node_id == old(self).node_id,
            final(self).info_hash == old(self).info_hash,
            final(self).answered@ == old(self).answered@,
    {
        let ghost visited0 = self.visited@;
        loop
            invariant
                self.visited@ == visited0,
                visited0 == old(self).visited@,
                self.node_id == old(self).node_id,
                self.info_hash == old(self).info_hash,
                self.answered@ == old(self).answered@,
                next_step(self.should_visit@, visited0) == next_step(
                    old(self).should_visit@,
                    old(self).visited@,
                ),
            decreases self.should_visit@.len(),
        {
            if self.should_visit.len() == 0 {
                return None;
            }
            let k = first_nearest(&self.should_visit);
            let c = self.should_visit.remove(k);
            if self.visited.contains(&c.0) {
                continue;
            }
            self.visited.insert(c.0);
            return Some(c);
        }
    }

    /// Takes the answer of the queried candidate `target` (`None` when it did
    /// not answer). An unanswered query asks to drop the queried node's id
    /// from the routing table. A node that answers is recorded as answered.
    /// Known peers end the search: announce to the `BUCKET_SIZE` (K = 8)
    /// answered nodes nearest to the info hash by XOR distance, nearest
    /// first (the responding nodes closest to the info hash, as BEP-0005
    /// describes the end of a `get_peers` search), and contact the peers.
    /// Returned contacts join the pending
    /// candidates at their distance to this node.
    pub fn on_reply(&mut self, target: Candidate, reply: Option<GetPeersResult>) -> (step: DownloadStep)
        ensures
            final(self).node_id == old(self).node_id,
            final(self).info_hash == old(self).info_hash,
            final(self).visited@ == old(self).visited@,
            match reply {
                None => step == DownloadStep::RemoveRoute(target.1.0)
                    && final(self).should_visit@ == old(self).should_visit@
                    && final(self).answered@ == old(self).answered@,
                Some(GetPeersResult::Values(peers)) => {
                    &&& final(self).answered@ == old(self).answered@.push(entry_of(target.1))
                    &&& final(self).should_visit@ == old(self).should_visit@
                    &&& step matches DownloadStep::Announce { announce_to, peers: ps }
                    &&& announce_to@ == node_infos(
                        closest_k(final(self).answered@, old(self).info_hash, BUCKET_SIZE as nat),
                    )
                    &&& ps@ == peers@
                },
                Some(GetPeersResult::Nodes(nodes)) => step == DownloadStep::Continue
                    && final(self).answered@ == old(self).answered@.push(entry_of(target.1))
                    && final(self).should_visit@ == old(self).should_visit@ + candidates_of(
                    old(self).node_id,
                    nodes@,
                ),
            },
    {
        match reply {
            None => DownloadStep::RemoveRoute(target.1 .0),
            Some(GetPeersResult::Values(peers)) => {
                self.answered.push(RoutingTableEntry { node_id: target.1 .0, address: target.1 .1 });
                let nearest = closest_entries(&self.answered, self.info_hash, BUCKET_SIZE);
                let announce_to = to_node_infos(&nearest);
                DownloadStep::Announce { announce_to, peers }
            },
            Some(GetPeersResult::Nodes(nodes)) => {
                self.answered.push(RoutingTableEntry { node_id: target.1 .0, address: target.1 .1 });
                let ghost start = self.should_visit@;
                for k in 0..nodes.len()
                    invariant
                        self.should_visit@ == start + candidates_of(self.node_id, nodes@.take(k as int)),
                        self.node_id == old(self).node_id,
                        self.info_hash == old(self).info_hash,
                        self.visited@ == old(self).visited@,
                        self.answered@ == old(self).answered@.push(entry_of(target.1)),
                        start == old(self).should_visit@,
                {
                    let n = nodes[k];
                    self.should_visit.push((self.node_id ^ n.0, n));
                    assert(candidates_of(self.node_id, nodes@.take(k + 1)) =~= candidates_of(
                        self.node_id,
                        nodes@.take(k as int),
                    ).push((self.node_id ^ n.0, n)));
                }
                assert(nodes@.take(nodes.len() as int) =~= nodes@);
                DownloadStep::Continue
            },
        }
    }
}

/// Index of the first candidate with the smallest distance.
fn first_nearest(s: &Vec<Candidate>) -> (k: usize)
    requires
        s.len() > 0,
    ensures
        k == min_index(s@),
        k < s.len(),
{
    let mut best: usize = 0;
    for j in 1..s.len()
        invariant
            s.len() > 0,
            best == min_index(s@.take(j as int)),
            best < j,
    {
        assert(s@.take(j + 1).drop_last() =~= s@.take(j as int));
        assert(s@.take(j as int)[best as int] == s@[best as int]);
        proof {
            lemma_min_index(s@.take(j as int));
        }
        if s[j].0 < s[best].0 {
            best = j;
        }
    }
    assert(s@.take(s.len() as int) =~= s@);
    proof {
        lemma_min_index(s@);
    }
    best
}

/// Whether the download succeeded: at least one peer was reached.
pub fn download_succeeded(successes: &Vec<bool>) -> (r: bool)
    ensures
        r == exists|i: int| 0 <= i < successes@.len() && successes@[i],
{
    for i in 0..successes.len()
        invariant
            forall|j: int| 0 <= j < i ==> !successes@[j],
    {
        if successes[i] {
            return true;
        }
    }
    false
}

/// Each step of a search queries the nearest candidate whose distance was
/// not queried before, or reports that every pending distance was queried;
/// what stays pending is taken from what was pending and is shorter. A
/// search therefore never queries the same distance twice.
pub proof fn law_next_step(pending: Seq<Candidate>, visited: Set<u128>)
    ensures
        match next_step(pending, visited).0 {
            Some(c) => {
                &&& pending.contains(c)
                &&& !visited.contains(c.0)
                &&& forall|j: int|
                    0 <= j < pending.len() && !visited.contains(#[trigger] pending[j].0) ==> c.0
                        <= pending[j].0
            },
            None => forall|j: int| 0 <= j < pending.len() ==> visited.contains(#[trigger] pending[j].0),
        },
        pending.len() > 0 ==> next_step(pending, visited).1.len() < pending.len(),
        forall|j: int|
            0 <= j < next_step(pending, visited).1.len() ==> pending.contains(
                #[trigger] next_step(pending, visited).1[j],
            ),
        forall|j: int|
            0 <= j < pending.len() ==> next_step(pending, visited).1.contains(#[trigger] pending[j])
                || next_step(pending, visited).0 == Some(pending[j]) || visited.contains(
                pending[j].0,
            ),
    decreases pending.len(),
{
    if pending.len() > 0 {
        lemma_min_index(pending);
        let k = min_index(pending);
        let c = pending[k];
        let rest = pending.remove(k);
        assert forall|j: int| 0 <= j < rest.len() implies pending.contains(#[trigger] rest[j]) by {
            if j < k {
                assert(rest[j] == pending[j]);
            } else {
                assert(rest[j] == pending[j + 1]);
            }
        }
        assert forall|j: int| 0 <= j < pending.len() && j != k implies rest.contains(#[trigger] pending[j]) by {
            if j < k {
                assert(rest[j] == pending[j]);
            } else {
                assert(rest[j - 1] == pending[j]);
            }
        }
        if visited.contains(c.0) {
            law_next_step(rest, visited);
            let r = next_step(rest, visited);
            assert(r == next_step(pending, visited));
            assert forall|j: int| 0 <= j < pending.len() implies r.1.contains(#[trigger] pending[j])
                || r.0 == Some(pending[j]) || visited.contains(pending[j].0) by {
                if j != k {
                    assert(rest.contains(pending[j]));
                    let m = choose|m: int| 0 <= m < rest.len() && rest[m] == pending[j];
                    assert(r.1.contains(rest[m]) || r.0 == Some(rest[m]) || visited.contains(rest[m].0));
                }
            }
            assert forall|j: int| 0 <= j < r.1.len() implies pending.contains(#[trigger] r.1[j]) by {
                assert(rest.contains(r.1[j]));
                let m = choose|m: int| 0 <= m < rest.len() && rest[m] == r.1[j];
                assert(pending.contains(rest[m]));
            }
            if r.0 is Some {
                let x = r.0->0;
                assert(rest.contains(x));
                let m = choose|m: int| 0 <= m < rest.len() && rest[m] == x;
                assert(pending.contains(rest[m]));
                assert forall|j: int|
                    0 <= j < pending.len() && !visited.contains(#[trigger] pending[j].0) implies x.0
                    <= pending[j].0 by {
                    if j < k {
                        assert(rest[j] == pending[j]);
                    } else if j > k {
                        assert(rest[j - 1] == pending[j]);
                    }
                }
            } else {
                assert forall|j: int| 0 <= j < pending.len() implies visited.contains(
                    #[trigger] pending[j].0,
                ) by {
                    if j < k {
                        assert(rest[j] == pending[j]);
                    } else if j > k {
                        assert(rest[j - 1] == pending[j]);
                    }
                }
            }
        } else {
            assert(pending.contains(pending[k]));
        }
    }
}

/// Index of the first entry with the smallest id (0 when empty).
pub open spec fn min_id_index(s: Seq<RoutingTableEntry>) -> int
    decreases s.len(),
{
    if s.len() <= 1 {
        0
    } else {
        let k = min_id_index(s.drop_last());
        if s.last().node_id < s[k].node_id {
            s.len() - 1
        } else {
            k
        }
    }
}

/// Index of the first contact with the largest id (0 when empty).
pub open spec fn max_id_index(s: Seq<NodeInfo>) -> int
    decreases s.len(),
{
    if s.len() <= 1 {
        0
    } else {
        let k = max_id_index(s.drop_last());
        if s.last().0 > s[k].0 {
            s.len() - 1
        } else {
            k
        }
    }
}

/// `min_id_index` points at an entry with the smallest id, the first among equals.
pub proof fn lemma_min_id_index(e: Seq<RoutingTableEntry>)
    requires
        e.len() > 0,
    ensures
        0 <= min_id_index(e) < e.len(),
        forall|j: int| 0 <= j < e.len() ==> e[min_id_index(e)].node_id <= (#[trigger] e[j]).node_id,
        forall|j: int| 0 <= j < min_id_index(e) ==> e[min_id_index(e)].node_id < (#[trigger] e[j]).node_id,
    decreases e.len(),
{
    if e.len() > 1 {
        let d = e.drop_last();
        lemma_min_id_index(d);
        let k = min_id_index(d);
        assert(e[k] == d[k]);
        assert forall|j: int| 0 <= j < e.len() implies e[min_id_index(e)].node_id <= (
        #[trigger] e[j]).node_id by {
            if j < d.len() {
                assert(e[j] == d[j]);
            }
        }
        assert forall|j: int| 0 <= j < min_id_index(e) implies e[min_id_index(e)].node_id < (
        #[trigger] e[j]).node_id by {
            if j < d.len() {
                assert(e[j] == d[j]);
            }
        }
    }
}

/// `max_id_index` points at a contact with the largest id, the first among equals.
pub proof fn lemma_max_id_index(n: Seq<NodeInfo>)
    requires
        n.len() > 0,
    ensures
        0 <= max_id_index(n) < n.len(),
        forall|j: int| 0 <= j < n.len() ==> (#[trigger] n[j]).0 <= n[max_id_index(n)].0,
        forall|j: int| 0 <= j < max_id_index(n) ==> (#[trigger] n[j]).0 < n[max_id_index(n)].0,
    decreases n.len(),
{
    if n.len() > 1 {
        let d = n.drop_last();
        lemma_max_id_index(d);
        let k = max_id_index(d);
        assert(n[k] == d[k]);
        assert forall|j: int| 0 <= j < n.len() implies (#[trigger] n[j]).0 <= n[max_id_index(n)].0 by {
            if j < d.len() {
                assert(n[j] == d[j]);
            }
        }
        assert forall|j: int| 0 <= j < max_id_index(n) implies (#[trigger] n[j]).0 < n[max_id_index(
            n,
        )].0 by {
            if j < d.len() {
                assert(n[j] == d[j]);
            }
        }
    }
}

/// The contact an upload asks first: the one with the smallest id, the
/// first among equals (the head of the contacts sorted by id, stably).
pub fn upload_first_hop(closest: &Vec<RoutingTableEntry>) -> (r: RoutingTableEntry)
    requires
        closest.len() > 0,
    ensures
        r == closest@[min_id_index(closest@)],
{
    let mut best: usize = 0;
    for j in 1..closest.len()
        invariant
            closest.len() > 0,
            best == min_id_index(closest@.take(j as int)),
            best < j,
    {
        assert(closest@.take(j + 1).drop_last() =~= closest@.take(j as int));
        assert(closest@.take(j as int)[best as int] == closest@[best as int]);
        proof {
            lemma_min_id_index(closest@.take(j as int));
        }
        if closest[j].node_id < closest[best].node_id {
            best = j;
        }
    }
    assert(closest@.take(closest.len() as int) =~= closest@);
    closest[best]
}

/// Whom an upload announces to, given the answer of the first hop: nobody
/// when the first hop returned an exact match; otherwise the returned
/// contact with the largest id, the first among equals (the head of the
/// contacts sorted by descending id, stably).
pub fn announce_target(response: &FindNodeResponse) -> (r: Option<NodeInfo>)
    requires
        response matches FindNodeResponse::Closest(ns) ==> ns.len() > 0,
    ensures
        match response {
            FindNodeResponse::Exact(_) => r is None,
            FindNodeResponse::Closest(ns) => r == Some(ns@[max_id_index(ns@)]),
        },
{
    match response {
        FindNodeResponse::Exact(_) => None,
        FindNodeResponse::Closest(nodes) => {
            let mut best: usize = 0;
            for j in 1..nodes.len()
                invariant
                    nodes.len() > 0,
                    best == max_id_index(nodes@.take(j as int)),
                    best < j,
            {
                assert(nodes@.take(j + 1).drop_last() =~= nodes@.take(j as int));
                assert(nodes@.take(j as int)[best as int] == nodes@[best as int]);
                proof {
                    lemma_max_id_index(nodes@.take(j as int));
                }
                if nodes[j].0 > nodes[best].0 {
                    best = j;
                }
            }
            assert(nodes@.take(nodes.len() as int) =~= nodes@);
            Some(nodes[best])
        },
    }
}

/// Distances from one node identify the other node: two contacts are at the
/// same distance exactly when they have the same id. Tracking visited
/// distances is tracking visited ids.
pub proof fn law_distance_identifies_node(node_id: u128, a: u128, b: u128)
    ensures
        (node_id ^ a == node_id ^ b) <==> a == b,
        node_id ^ node_id == 0,
{
    assert((node_id ^ a == node_id ^ b) <==> a == b) by (bit_vector);
    assert(node_id ^ node_id == 0) by (bit_vector);
}

/// The node behind `n`'s address answers queries in `net` (address handle
/// to node state).
pub open spec fn answers(net: Map<u64, Node>, n: NodeInfo) -> bool {
    net.contains_key(n.1)
}

/// The node knows peers for `info_hash`: it answers `get_peers` with them.
pub open spec fn lists_peers(node: Node, info_hash: u128) -> bool {
    node.peers_view().contains_key(info_hash)
}

/// The contacts a node without peers for `info_hash` answers `get_peers`
/// with: the `BUCKET_SIZE` contacts of its table nearest to the info hash.
pub open spec fn contacts_given(node: Node, info_hash: u128) -> Seq<NodeInfo> {
    node_infos(closest_k(all_entries(node.routing_table@), info_hash, BUCKET_SIZE as nat))
}

/// Every contact the search can meet: the starting contacts and the
/// contacts any answering node gives.
pub open spec fn seen(net: Map<u64, Node>, info_hash: u128, start: Seq<NodeInfo>, n: NodeInfo) -> bool {
    ||| start.contains(n)
    ||| exists|a: u64| #[trigger] net.contains_key(a) && contacts_given(net[a], info_hash).contains(n)
}

/// Ids name addresses consistently: two contacts the search can meet with
/// the same id are the same contact.
pub open spec fn consistent(net: Map<u64, Node>, info_hash: u128, start: Seq<NodeInfo>) -> bool {
    forall|x: NodeInfo, y: NodeInfo|
        #![trigger seen(net, info_hash, start, x), seen(net, info_hash, start, y)]
        seen(net, info_hash, start, x) && seen(net, info_hash, start, y) && x.0 == y.0 ==> x == y
}

/// `w` holds the contacts of each of its members that answers without peers.
pub open spec fn closed(net: Map<u64, Node>, info_hash: u128, w: Set<NodeInfo>) -> bool {
    forall|n: NodeInfo|
        #![trigger w.contains(n)]
        w.contains(n) && answers(net, n) && !lists_peers(net[n.1], info_hash) ==> forall|j: int|
            0 <= j < contacts_given(net[n.1], info_hash).len() ==> w.contains(
                #[trigger] contacts_given(net[n.1], info_hash)[j],
            )
}

/// `n` is reachable from the starting contacts through `get_peers` answers
/// that give contacts: it belongs to every closed set holding the start.
pub open spec fn reachable(net: Map<u64, Node>, info_hash: u128, start: Seq<NodeInfo>, n: NodeInfo) -> bool {
    forall|w: Set<NodeInfo>|
        #![trigger closed(net, info_hash, w), w.contains(n)]
        closed(net, info_hash, w) && (forall|j: int| 0 <= j < start.len() ==> w.contains(#[trigger] start[j]))
            ==> w.contains(n)
}

/// The number of distinct `u128` values.
pub open spec fn id_space() -> int {
    u128::MAX as int + 1
}

/// A finite set of `u128` values has at most `id_space()` members.
pub proof fn lemma_u128_set_len(s: Set<u128>)
    requires
        s.finite(),
    ensures
        s.len() <= id_space(),
{
    let f = |x: u128| x as int;
    let m = s.map(f);
    assert(vstd::relations::injective_on(f, s));
    vstd::set_lib::lemma_map_size(s, m, f);
    vstd::set_lib::lemma_int_range(0, id_space());
    assert(m.subset_of(vstd::set_lib::set_int_range(0, id_space())));
    vstd::set_lib::lemma_len_subset(m, vstd::set_lib::set_int_range(0, id_space()));
}

/// Where a search run by `me` for `info_hash` over the network `net` ends,
/// every node keeping its state meanwhile: it takes the next candidate as
/// [`next_step`] does; a node that does not answer is passed over; a node
/// that knows peers ends the search with that candidate; any other node's
/// contacts join the pending candidates. `None` once no candidate is left.
pub open spec fn search_outcome(
    net: Map<u64, Node>,
    me: u128,
    info_hash: u128,
    pending: Seq<Candidate>,
    visited: Set<u128>,
) -> Option<Candidate>
    decreases id_space() - visited.len(),
{
    if !visited.finite() {
        None
    } else {
        let (next, rest) = next_step(pending, visited);
        match next {
            None => None,
            Some(c) => {
                proof {
                    law_next_step(pending, visited);
                    lemma_u128_set_len(visited.insert(c.0));
                }
                if !answers(net, c.1) {
                    search_outcome(net, me, info_hash, rest, visited.insert(c.0))
                } else if lists_peers(net[c.1.1], info_hash) {
                    Some(c)
                } else {
                    search_outcome(
                        net,
                        me,
                        info_hash,
                        rest + candidates_of(me, contacts_given(net[c.1.1], info_hash)),
                        visited.insert(c.0),
                    )
                }
            },
        }
    }
}

/// The contacts of a reachable node that answers without peers are reachable.
proof fn lemma_reachable_step(net: Map<u64, Node>, info_hash: u128, start: Seq<NodeInfo>, n: NodeInfo, j: int)
    requires
        reachable(net, info_hash, start, n),
        answers(net, n),
        !lists_peers(net[n.1], info_hash),
        0 <= j < contacts_given(net[n.1], info_hash).len(),
    ensures
        reachable(net, info_hash, start, contacts_given(net[n.1], info_hash)[j]),
{
    let x = contacts_given(net[n.1], info_hash)[j];
    assert forall|w: Set<NodeInfo>|
        closed(net, info_hash, w) && (forall|i: int| 0 <= i < start.len() ==> w.contains(#[trigger] start[i]))
        implies w.contains(x) by {
        assert(w.contains(n));
    }
}

/// The search's invariant: `queried` holds the contacts queried so far, and
/// `visited` their distances; none of them knows peers; each queried node
/// that answered has its contacts queried or pending; the start is queried
/// or pending; everything pending or queried can be met and is reachable.
pub open spec fn search_inv(
    net: Map<u64, Node>,
    me: u128,
    info_hash: u128,
    start: Seq<NodeInfo>,
    pending: Seq<Candidate>,
    visited: Set<u128>,
    queried: Set<NodeInfo>,
) -> bool {
    &&& visited.finite()
    &&& forall|d: u128| visited.contains(d) <==> exists|q: NodeInfo| #[trigger] queried.contains(q) && d == me ^ q.0
    &&& forall|j: int| 0 <= j < pending.len() ==> (#[trigger] pending[j]).0 == me ^ pending[j].1.0
    &&& forall|j: int|
        0 <= j < pending.len() ==> seen(net, info_hash, start, (#[trigger] pending[j]).1) && reachable(
            net,
            info_hash,
            start,
            pending[j].1,
        )
    &&& forall|q: NodeInfo|
        #[trigger] queried.contains(q) ==> seen(net, info_hash, start, q) && !(answers(net, q)
            && lists_peers(net[q.1], info_hash))
    &&& forall|q: NodeInfo, j: int|
        #![trigger queried.contains(q), contacts_given(net[q.1], info_hash)[j]]
        queried.contains(q) && answers(net, q) && 0 <= j < contacts_given(net[q.1], info_hash).len()
            ==> queried.contains(contacts_given(net[q.1], info_hash)[j]) || exists|i: int|
            0 <= i < pending.len() && #[trigger] pending[i].1 == contacts_given(net[q.1], info_hash)[j]
    &&& forall|j: int|
        0 <= j < start.len() ==> queried.contains(#[trigger] start[j]) || exists|i: int|
            0 <= i < pending.len() && #[trigger] pending[i].1 == start[j]
}

/// A candidate whose distance was visited is a queried contact.
proof fn lemma_visited_is_queried(
    net: Map<u64, Node>,
    me: u128,
    info_hash: u128,
    start: Seq<NodeInfo>,
    visited: Set<u128>,
    queried: Set<NodeInfo>,
    x: Candidate,
)
    requires
        consistent(net, info_hash, start),
        forall|d: u128| visited.contains(d) <==> exists|q: NodeInfo| #[trigger] queried.contains(q) && d == me ^ q.0,
        forall|q: NodeInfo| #[trigger] queried.contains(q) ==> seen(net, info_hash, start, q),
        x.0 == me ^ x.1.0,
        seen(net, info_hash, start, x.1),
        visited.contains(x.0),
    ensures
        queried.contains(x.1),
{
    let q = choose|q: NodeInfo| #[trigger] queried.contains(q) && x.0 == me ^ q.0;
    law_distance_identifies_node(me, q.0, x.1.0);
    assert(seen(net, info_hash, start, q));
}

/// One step of the search keeps its invariant.
#[verifier::spinoff_prover]
proof fn lemma_search_step(
    net: Map<u64, Node>,
    me: u128,
    info_hash: u128,
    start: Seq<NodeInfo>,
    pending: Seq<Candidate>,
    visited: Set<u128>,
    queried: Set<NodeInfo>,
    c: Candidate,
    rest: Seq<Candidate>,
    added: Seq<NodeInfo>,
)
    requires
        consistent(net, info_hash, start),
        search_inv(net, me, info_hash, start, pending, visited, queried),
        next_step(pending, visited) == (Some(c), rest),
        !answers(net, c.1) ==> added == Seq::<NodeInfo>::empty(),
        answers(net, c.1) ==> !lists_peers(net[c.1.1], info_hash) && added == contacts_given(
            net[c.1.1],
            info_hash,
        ),
    ensures
        search_inv(
            net,
            me,
            info_hash,
            start,
            rest + candidates_of(me, added),
            visited.insert(c.0),
            queried.insert(c.1),
        ),
{
    law_next_step(pending, visited);
    let p2 = rest + candidates_of(me, added);
    let v2 = visited.insert(c.0);
    let q2 = queried.insert(c.1);
    let k = choose|k: int| 0 <= k < pending.len() && pending[k] == c;
    assert(c.0 == me ^ c.1.0 && seen(net, info_hash, start, c.1) && reachable(net, info_hash, start, c.1)) by {
        assert(pending[k] == c);
    }
    // where each pending candidate went
    assert forall|i: int| 0 <= i < pending.len() implies queried.contains((#[trigger] pending[i]).1)
        || pending[i].1 == c.1 || exists|m: int| 0 <= m < p2.len() && p2[m].1 == pending[i].1 by {
        if rest.contains(pending[i]) {
            let m = choose|m: int| 0 <= m < rest.len() && rest[m] == pending[i];
            assert(p2[m] == rest[m]);
        } else if Some(pending[i]) != Some(c) {
            lemma_visited_is_queried(net, me, info_hash, start, visited, queried, pending[i]);
        }
    }
    // the rest stays well formed, can be met and is reachable
    assert forall|m: int| 0 <= m < p2.len() implies (#[trigger] p2[m]).0 == me ^ p2[m].1.0 && seen(
        net,
        info_hash,
        start,
        p2[m].1,
    ) && reachable(net, info_hash, start, p2[m].1) by {
        if m < rest.len() {
            assert(p2[m] == rest[m]);
            assert(pending.contains(rest[m]));
            let i = choose|i: int| 0 <= i < pending.len() && pending[i] == rest[m];
            assert(pending[i] == rest[m]);
        } else {
            let j = m - rest.len();
            assert(p2[m] == candidates_of(me, added)[j]);
            assert(p2[m] == (me ^ added[j].0, added[j]));
            assert(net.contains_key(c.1.1) && contacts_given(net[c.1.1], info_hash).contains(added[j]));
            lemma_reachable_step(net, info_hash, start, c.1, j);
        }
    }
    // visited distances are those of the queried contacts
    assert forall|d: u128| v2.contains(d) <==> exists|q: NodeInfo| #[trigger] q2.contains(q) && d == me ^ q.0 by {
        if v2.contains(d) && d != c.0 {
            assert(visited.contains(d));
            let q = choose|q: NodeInfo| #[trigger] queried.contains(q) && d == me ^ q.0;
            assert(q2.contains(q));
        }
        if d == c.0 {
            assert(q2.contains(c.1));
        }
        if exists|q: NodeInfo| #[trigger] q2.contains(q) && d == me ^ q.0 {
            let q = choose|q: NodeInfo| #[trigger] q2.contains(q) && d == me ^ q.0;
            if q != c.1 {
                assert(queried.contains(q));
                assert(visited.contains(d));
            }
        }
    }
    assert forall|q: NodeInfo| #[trigger] q2.contains(q) implies seen(net, info_hash, start, q) && !(
    answers(net, q) && lists_peers(net[q.1], info_hash)) by {
        if q != c.1 {
            assert(queried.contains(q));
        }
    }
    // queried contacts' answers are covered
    assert forall|q: NodeInfo, j: int|
        #![trigger q2.contains(q), contacts_given(net[q.1], info_hash)[j]]
        q2.contains(q) && answers(net, q) && 0 <= j < contacts_given(net[q.1], info_hash).len()
        implies q2.contains(contacts_given(net[q.1], info_hash)[j]) || exists|i: int|
        0 <= i < p2.len() && #[trigger] p2[i].1 == contacts_given(net[q.1], info_hash)[j] by {
        let x = contacts_given(net[q.1], info_hash)[j];
        if q == c.1 {
            let m = rest.len() + j;
            assert(p2[m] == candidates_of(me, added)[j]);
            assert(p2[m].1 == x);
        } else {
            assert(queried.contains(q));
            if !queried.contains(x) {
                let i = choose|i: int| 0 <= i < pending.len() && #[trigger] pending[i].1 == x;
                assert(queried.contains(pending[i].1) || pending[i].1 == c.1 || exists|m: int|
                    0 <= m < p2.len() && p2[m].1 == pending[i].1);
            }
        }
    }
    assert forall|j: int| 0 <= j < start.len() implies q2.contains(#[trigger] start[j]) || exists|i: int|
        0 <= i < p2.len() && #[trigger] p2[i].1 == start[j] by {
        if !queried.contains(start[j]) {
            let i = choose|i: int| 0 <= i < pending.len() && #[trigger] pending[i].1 == start[j];
            assert(queried.contains(pending[i].1) || pending[i].1 == c.1 || exists|m: int|
                0 <= m < p2.len() && p2[m].1 == pending[i].1);
        }
    }
}

/// The search from any state satisfying its invariant ends with a node that
/// knows peers and is reachable, or with a closed set of contacts that
/// holds the start and in which no answering node knows peers.
proof fn lemma_search(
    net: Map<u64, Node>,
    me: u128,
    info_hash: u128,
    start: Seq<NodeInfo>,
    pending: Seq<Candidate>,
    visited: Set<u128>,
    queried: Set<NodeInfo>,
)
    requires
        consistent(net, info_hash, start),
        search_inv(net, me, info_hash, start, pending, visited, queried),
    ensures
        search_outcome(net, me, info_hash, pending, visited) matches Some(c) ==> answers(net, c.1)
            && lists_peers(net[c.1.1], info_hash) && reachable(net, info_hash, start, c.1),
        search_outcome(net, me, info_hash, pending, visited) is None ==> exists|w: Set<NodeInfo>|
            closed(net, info_hash, w) && (forall|j: int| 0 <= j < start.len() ==> w.contains(#[trigger] start[j]))
                && (forall|n: NodeInfo| #[trigger] w.contains(n) && answers(net, n) ==> !lists_peers(
                net[n.1],
                info_hash,
            )),
    decreases id_space() - visited.len(),
{
    law_next_step(pending, visited);
    let (next, rest) = next_step(pending, visited);
    match next {
        None => {
            // every pending candidate was queried: the queried contacts are closed
            assert forall|i: int| 0 <= i < pending.len() implies queried.contains((#[trigger] pending[i]).1) by {
                lemma_visited_is_queried(net, me, info_hash, start, visited, queried, pending[i]);
            }
            assert(closed(net, info_hash, queried)) by {
                assert forall|n: NodeInfo|
                    #![trigger queried.contains(n)]
                    queried.contains(n) && answers(net, n) && !lists_peers(net[n.1], info_hash) implies forall|j: int|
                    0 <= j < contacts_given(net[n.1], info_hash).len() ==> queried.contains(
                        #[trigger] contacts_given(net[n.1], info_hash)[j],
                    ) by {
                    assert forall|j: int| 0 <= j < contacts_given(net[n.1], info_hash).len() implies queried.contains(
                        #[trigger] contacts_given(net[n.1], info_hash)[j],
                    ) by {
                        let x = contacts_given(net[n.1], info_hash)[j];
                        if !queried.contains(x) {
                            let i = choose|i: int| 0 <= i < pending.len() && #[trigger] pending[i].1 == x;
                            assert(queried.contains(pending[i].1));
                        }
                    }
                }
            }
            assert forall|j: int| 0 <= j < start.len() implies queried.contains(#[trigger] start[j]) by {
                if !queried.contains(start[j]) {
                    let i = choose|i: int| 0 <= i < pending.len() && #[trigger] pending[i].1 == start[j];
                    assert(queried.contains(pending[i].1));
                }
            }
        },
        Some(c) => {
            lemma_u128_set_len(visited.insert(c.0));
            let k = choose|k: int| 0 <= k < pending.len() && pending[k] == c;
            assert(pending[k] == c);
            if !answers(net, c.1) {
                lemma_search_step(net, me, info_hash, start, pending, visited, queried, c, rest, Seq::empty());
                assert(rest + candidates_of(me, Seq::<NodeInfo>::empty()) =~= rest);
                lemma_search(net, me, info_hash, start, rest, visited.insert(c.0), queried.insert(c.1));
            } else if !lists_peers(net[c.1.1], info_hash) {
                let added = contacts_given(net[c.1.1], info_hash);
                lemma_search_step(net, me, info_hash, start, pending, visited, queried, c, rest, added);
                lemma_search(
                    net,
                    me,
                    info_hash,
                    start,
                    rest + candidates_of(me, added),
                    visited.insert(c.0),
                    queried.insert(c.1),
                );
            }
        },
    }
}

/// The download search over a network whose nodes keep their state while
/// it runs (`net` maps address handles to the nodes that answer), started
/// by `me` from the contacts `start` with nothing visited, and where ids name
/// addresses consistently: it ends ([`search_outcome`] is defined by a
/// decreasing measure), and it ends with a node that knows peers exactly
/// when some answering node reachable from `start` through `get_peers`
/// answers that give contacts knows peers. The node it ends with is such a
/// node.
pub proof fn law_search_finds_peers(net: Map<u64, Node>, me: u128, info_hash: u128, start: Seq<NodeInfo>)
    requires
        consistent(net, info_hash, start),
    ensures
        search_outcome(net, me, info_hash, candidates_of(me, start), Set::empty()) matches Some(c)
            ==> answers(net, c.1) && lists_peers(net[c.1.1], info_hash) && reachable(net, info_hash, start, c.1),
        search_outcome(net, me, info_hash, candidates_of(me, start), Set::empty()) is Some
            <==> exists|n: NodeInfo|
            reachable(net, info_hash, start, n) && answers(net, n) && #[trigger] lists_peers(net[n.1], info_hash),
{
    let pending = candidates_of(me, start);
    let visited = Set::<u128>::empty();
    let queried = Set::<NodeInfo>::empty();
    assert forall|j: int| 0 <= j < start.len() implies reachable(net, info_hash, start, #[trigger] start[j]) by {
        assert forall|w: Set<NodeInfo>|
            closed(net, info_hash, w) && (forall|i: int| 0 <= i < start.len() ==> w.contains(#[trigger] start[i]))
            implies w.contains(start[j]) by {}
    }
    assert forall|j: int| 0 <= j < pending.len() implies (#[trigger] pending[j]).0 == me ^ pending[j].1.0
        && seen(net, info_hash, start, pending[j].1) && reachable(net, info_hash, start, pending[j].1) by {
        assert(pending[j] == (me ^ start[j].0, start[j]));
        assert(start.contains(start[j]));
    }
    assert forall|j: int| 0 <= j < start.len() implies queried.contains(#[trigger] start[j]) || exists|i: int|
        0 <= i < pending.len() && #[trigger] pending[i].1 == start[j] by {
        assert(pending[j].1 == start[j]);
    }
    assert(search_inv(net, me, info_hash, start, pending, visited, queried));
    lemma_search(net, me, info_hash, start, pending, visited, queried);
    let r = search_outcome(net, me, info_hash, pending, visited);
    if r is None {
        let w = choose|w: Set<NodeInfo>|
            closed(net, info_hash, w) && (forall|j: int| 0 <= j < start.len() ==> w.contains(#[trigger] start[j]))
                && (forall|n: NodeInfo| #[trigger] w.contains(n) && answers(net, n) ==> !lists_peers(
                net[n.1],
                info_hash,
            ));
        assert forall|n: NodeInfo|
            reachable(net, info_hash, start, n) && answers(net, n) implies !#[trigger] lists_peers(
            net[n.1],
            info_hash,
        ) by {
            assert(w.contains(n));
        }
    }
}

} // verus!
