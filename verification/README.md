# dht

A small in-memory BitTorrent DHT (BEP-0005), verified with Verus.

- `src/info_hash_big.rs`: 160-bit identifiers and the XOR metric.
- `src/bucket.rs`: k-buckets and their split.
- `src/routing_table.rs`: the routing table of buckets, its lookups, and the laws
  that relate insertion, removal and lookup.
- `src/closest.rs`: the K contacts nearest to a target by XOR distance.
- `src/dht_methods.rs`: contact information and the answers to queries.
- `src/node.rs`: a node's state and how it answers `ping`, `find_node`,
  `get_peers` and `announce_peer`.
- `src/control_methods.rs`: the decisions taken while downloading (a search
  through the network, nearest candidate first) and uploading a file, and the
  law that the search ends and finds peers exactly when a reachable node
  knows them.
- `app/`: the actor network (actix) that runs the nodes and carries the
  messages; addresses are known to the library by integer handles.
