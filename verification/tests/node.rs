use dht::dht_methods::{FindNodeResponse, GetPeersResult, NodeInfo, PeerInfo};
use dht::node::Node;
use dht::routing_table::RoutingTableEntry;

#[test]
fn new_nodes_have_random_ids_and_empty_state() {
    let a = Node::new();
    let b = Node::new();
    assert!(a.node_id != b.node_id);
    assert!(a.peers.is_empty());
    assert!(a.routing_table.find_closest(0).is_empty());
    assert_eq!(a.ping(), a.node_id);
}

#[test]
fn find_node_exact_or_closest() {
    let mut n = Node::new();
    n.add_route(10, 1);
    n.add_route(20, 2);
    assert_eq!(n.find_node(20), FindNodeResponse::Exact(NodeInfo(20, 2)));
    assert_eq!(
        n.find_node(30),
        FindNodeResponse::Closest(vec![NodeInfo(20, 2), NodeInfo(10, 1)])
    );
}

#[test]
fn get_peers_values_after_announce() {
    let mut n = Node::new();
    n.add_route(10, 1);
    assert_eq!(n.get_peers(77), GetPeersResult::Nodes(vec![NodeInfo(10, 1)]));
    n.announce_peer(77, 5);
    n.announce_peer(77, 6);
    n.announce_peer(78, 7);
    assert_eq!(
        n.get_peers(77),
        GetPeersResult::Values(vec![PeerInfo(5), PeerInfo(6)])
    );
    assert_eq!(n.get_peers(78), GetPeersResult::Values(vec![PeerInfo(7)]));
}

#[test]
fn remove_route_forgets_contact() {
    let mut n = Node::new();
    n.add_route(10, 1);
    n.add_route(11, 2);
    n.remove_route(10);
    assert_eq!(n.routing_table.find_exact(10), None);
    assert_eq!(n.find_node(10), FindNodeResponse::Closest(vec![NodeInfo(11, 2)]));
}

#[test]
fn find_node_answers_eight_nearest_of_whole_table() {
    // Own id 0; ids 1..=8 fill the only bucket, u128::MAX splits it and lands
    // in the upper bucket.
    let mut n = Node::new();
    n.routing_table = dht::routing_table::RoutingTable::new(0);
    for i in 1..=8u128 {
        n.add_route(i, i as u64);
    }
    n.add_route(u128::MAX, 99);
    let target = u128::MAX - 1;
    // XOR distances to u128::MAX - 1: u128::MAX -> 1, 8 -> MAX-9, 6 -> MAX-7,
    // 7 -> MAX-6, 4 -> MAX-5, 5 -> MAX-4, 2 -> MAX-3, 3 -> MAX-2, 1 -> MAX.
    let expected: Vec<NodeInfo> = vec![
        NodeInfo(u128::MAX, 99),
        NodeInfo(8, 8),
        NodeInfo(6, 6),
        NodeInfo(7, 7),
        NodeInfo(4, 4),
        NodeInfo(5, 5),
        NodeInfo(2, 2),
        NodeInfo(3, 3),
    ];
    assert_eq!(n.find_node(target), FindNodeResponse::Closest(expected));
    assert_eq!(n.find_node(5), FindNodeResponse::Exact(NodeInfo(5, 5)));
    match n.get_peers(target) {
        GetPeersResult::Nodes(ns) => assert_eq!(ns.len(), 8),
        other => panic!("unexpected {:?}", other),
    }
}

#[test]
fn find_node_with_few_contacts_answers_all_in_distance_order() {
    let mut n = Node::new();
    n.add_route(0b0110, 1);
    n.add_route(0b0001, 2);
    n.add_route(0b0100, 3);
    assert_eq!(
        n.find_node(0b0101),
        FindNodeResponse::Closest(vec![NodeInfo(0b0100, 3), NodeInfo(0b0110, 1), NodeInfo(0b0001, 2)])
    );
}

#[test]
fn conversions_from_entries() {
    let e = RoutingTableEntry { node_id: 3, address: 4 };
    assert_eq!(NodeInfo::from(e), NodeInfo(3, 4));
    assert_eq!(PeerInfo::from(e), PeerInfo(4));
    assert_eq!(dht::dht_methods::to_node_infos(&vec![e]), vec![NodeInfo(3, 4)]);
    assert_eq!(dht::dht_methods::to_peer_infos(&vec![8, 9]), vec![PeerInfo(8), PeerInfo(9)]);
}
