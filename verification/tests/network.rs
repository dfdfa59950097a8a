//! A whole network of nodes run in one process: every query is a direct
//! call on the receiving node, and a stopped node answers nothing.

use dht::control_methods::{announce_target, download_succeeded, upload_first_hop, DownloadSearch, DownloadStep};
use dht::node::Node;

/// Network size in nodes.
const TOTAL_NODES: usize = 8;

struct Network {
    /// The node behind each address handle; `None` once stopped.
    nodes: Vec<Option<Node>>,
}

impl Network {
    fn node(&mut self, address: u64) -> Option<&mut Node> {
        self.nodes[address as usize].as_mut()
    }
}

/// Every node knows node 0, and node 0 knows every node.
fn setup_dht() -> Network {
    let mut nodes: Vec<Option<Node>> = (0..TOTAL_NODES).map(|_| Some(Node::new())).collect();
    let id0 = nodes[0].as_ref().unwrap().node_id;
    for i in 1..TOTAL_NODES {
        let idi = nodes[i].as_ref().unwrap().node_id;
        nodes[0].as_mut().unwrap().add_route(idi, i as u64);
        nodes[i].as_mut().unwrap().add_route(id0, 0);
    }
    Network { nodes }
}

fn upload_file(net: &mut Network, from: usize, info_hash: u128) {
    let me = net.node(from as u64).unwrap();
    let closest = me.routing_table.find_closest(info_hash);
    let first = upload_first_hop(&closest);
    let response = net.node(first.address).unwrap().find_node(info_hash);
    if let Some(target) = announce_target(&response) {
        if let Some(n) = net.node(target.1) {
            n.announce_peer(info_hash, from as u64);
        }
    }
}

fn download_file(net: &mut Network, from: usize, info_hash: u128) -> bool {
    let me = net.node(from as u64).unwrap();
    let node_id = me.node_id;
    let closest = me.routing_table.find_closest(info_hash);
    for e in &closest {
        me.add_route(e.node_id, e.address);
    }
    let mut search = DownloadSearch::start(node_id, info_hash, &closest);
    while let Some(target) = search.next_target() {
        let reply = net.node(target.1 .1).map(|n| n.get_peers(info_hash));
        match search.on_reply(target, reply) {
            DownloadStep::RemoveRoute(id) => net.node(from as u64).unwrap().remove_route(id),
            DownloadStep::Announce { announce_to, peers } => {
                for holder in announce_to {
                    if let Some(n) = net.node(holder.1) {
                        n.announce_peer(info_hash, from as u64);
                    }
                }
                let mut successes = Vec::new();
                for p in peers {
                    match net.node(p.0) {
                        Some(n) => {
                            n.announce_peer(info_hash, from as u64);
                            successes.push(true);
                        }
                        None => successes.push(false),
                    }
                }
                return download_succeeded(&successes);
            }
            DownloadStep::Continue => {}
        }
    }
    false
}

fn kill_node(net: &mut Network, i: usize) {
    net.nodes[i] = None;
}

#[test]
fn one_hop() {
    let mut network = setup_dht();
    let info_hash: u128 = rand::random();
    upload_file(&mut network, 1, info_hash);

    let res = download_file(&mut network, TOTAL_NODES - 1, info_hash);

    assert!(res);
}

#[test]
fn cant_find() {
    let mut network = setup_dht();
    let info_hash: u128 = rand::random();

    let res = download_file(&mut network, TOTAL_NODES - 1, info_hash);

    assert!(!res);
}

#[test]
fn node_removal_resilient() {
    let mut network = setup_dht();
    let info_hash: u128 = rand::random();

    upload_file(&mut network, 1, info_hash);
    download_file(&mut network, TOTAL_NODES - 1, info_hash);
    download_file(&mut network, TOTAL_NODES - 2, info_hash);
    download_file(&mut network, TOTAL_NODES - 3, info_hash);
    download_file(&mut network, TOTAL_NODES - 4, info_hash);
    kill_node(&mut network, 1);

    let res = download_file(&mut network, 2, info_hash);

    assert!(res);
}

#[test]
fn node_removal_crash() {
    let mut network = setup_dht();
    let info_hash: u128 = rand::random();

    upload_file(&mut network, 1, info_hash);
    kill_node(&mut network, 1);

    let res = download_file(&mut network, 2, info_hash);

    assert!(!res);
}

#[test]
fn readme_scenario_finds_peer_through_hops() {
    // Node 0 knows nodes 1 and 3, node 1 knows node 2, node 3 knows node 5,
    // node 5 knows node 2; node 2 keeps node 4 as a peer of the file whose
    // info hash is node 2's id. Node 0 finds it and reaches node 4.
    let mut nodes: Vec<Option<Node>> = (0..TOTAL_NODES).map(|_| Some(Node::new())).collect();
    let ids: Vec<u128> = nodes.iter().map(|n| n.as_ref().unwrap().node_id).collect();
    for (from, to) in [(0usize, 1usize), (1, 2), (0, 3), (3, 5), (5, 2)] {
        nodes[from].as_mut().unwrap().add_route(ids[to], to as u64);
    }
    nodes[2].as_mut().unwrap().announce_peer(ids[2], 4);
    let mut network = Network { nodes };

    assert!(download_file(&mut network, 0, ids[2]));
    // Node 4 now also knows node 0 as a peer of the file.
    assert_eq!(
        network.node(4).unwrap().get_peers(ids[2]),
        dht::dht_methods::GetPeersResult::Values(vec![dht::dht_methods::PeerInfo(0)])
    );
}
