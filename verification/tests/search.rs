use dht::control_methods::{
    announce_target, download_succeeded, upload_first_hop, DownloadSearch, DownloadStep,
};
use dht::dht_methods::{FindNodeResponse, GetPeersResult, NodeInfo, PeerInfo};
use dht::routing_table::RoutingTableEntry;

fn entry(node_id: u128, address: u64) -> RoutingTableEntry {
    RoutingTableEntry { node_id, address }
}

#[test]
fn search_starts_from_closest_with_distances() {
    let s = DownloadSearch::start(0b1100, 99, &vec![entry(0b1010, 1), entry(0b0001, 2)]);
    assert_eq!(s.node_id, 0b1100);
    assert_eq!(s.info_hash, 99);
    assert_eq!(
        s.should_visit,
        vec![(0b0110, NodeInfo(0b1010, 1)), (0b1101, NodeInfo(0b0001, 2))]
    );
    assert!(s.visited.is_empty());
    assert!(s.answered.is_empty());
}

#[test]
fn search_visits_nearest_first_and_never_twice() {
    let mut s = DownloadSearch::start(0, 1, &vec![entry(5, 1), entry(9, 2), entry(7, 3)]);
    assert_eq!(s.next_target(), Some((5, NodeInfo(5, 1))));
    assert_eq!(s.next_target(), Some((7, NodeInfo(7, 3))));
    // A contact at an already visited distance is skipped.
    let step = s.on_reply(
        (7, NodeInfo(7, 3)),
        Some(GetPeersResult::Nodes(vec![NodeInfo(5, 1), NodeInfo(12, 4)])),
    );
    assert_eq!(step, DownloadStep::Continue);
    assert_eq!(s.answered, vec![entry(7, 3)]);
    assert_eq!(s.next_target(), Some((9, NodeInfo(9, 2))));
    assert_eq!(s.next_target(), Some((12, NodeInfo(12, 4))));
    assert_eq!(s.next_target(), None);
    assert_eq!(s.visited.iter().copied().collect::<Vec<u128>>(), vec![5, 7, 9, 12]);
}

#[test]
fn unanswered_query_removes_the_queried_node() {
    // Seen from node 1, node 3 is at distance 2; its id is what gets dropped.
    let mut s = DownloadSearch::start(1, 1, &vec![entry(3, 7)]);
    let target = s.next_target().unwrap();
    assert_eq!(target, (2, NodeInfo(3, 7)));
    assert_eq!(s.on_reply(target, None), DownloadStep::RemoveRoute(3));
    assert!(s.answered.is_empty());
}

#[test]
fn known_peers_end_search_announcing_to_nearest_answered_nodes() {
    let mut s = DownloadSearch::start(0, 0b1000, &vec![]);
    assert_eq!(s.next_target(), None);
    s.on_reply((1, NodeInfo(1, 11)), Some(GetPeersResult::Nodes(vec![])));
    s.on_reply((0b1001, NodeInfo(0b1001, 12)), Some(GetPeersResult::Nodes(vec![])));
    let step = s.on_reply(
        (0b1100, NodeInfo(0b1100, 13)),
        Some(GetPeersResult::Values(vec![PeerInfo(8)])),
    );
    // Distances to the info hash 0b1000: 0b1001 -> 1, 0b1100 -> 4, 1 -> 9.
    assert_eq!(
        step,
        DownloadStep::Announce {
            announce_to: vec![NodeInfo(0b1001, 12), NodeInfo(0b1100, 13), NodeInfo(1, 11)],
            peers: vec![PeerInfo(8)],
        }
    );
}

#[test]
fn download_succeeds_when_any_announce_does() {
    assert!(!download_succeeded(&vec![]));
    assert!(!download_succeeded(&vec![false, false]));
    assert!(download_succeeded(&vec![false, true, false]));
}

#[test]
fn upload_asks_smallest_id_first() {
    assert_eq!(upload_first_hop(&vec![entry(9, 1), entry(3, 2), entry(3, 3), entry(4, 4)]), entry(3, 2));
    assert_eq!(upload_first_hop(&vec![entry(9, 1)]), entry(9, 1));
}

#[test]
fn upload_announces_to_largest_returned_id() {
    assert_eq!(announce_target(&FindNodeResponse::Exact(NodeInfo(1, 1))), None);
    assert_eq!(
        announce_target(&FindNodeResponse::Closest(vec![NodeInfo(4, 1), NodeInfo(8, 2), NodeInfo(8, 3), NodeInfo(2, 4)])),
        Some(NodeInfo(8, 2))
    );
}
