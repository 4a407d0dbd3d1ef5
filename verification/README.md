# kmeans

A distributed k-means clustering program whose logic is a verified library.

- `src/` — the library, verified with Verus:
  - `kmeans.rs`: sharing points and clusters among workers, grouping points
    around their nearest centre, choosing new centres, drawing initial centres;
  - `node.rs`: the protocol of a node as a state machine (`KmeansNode::step`),
    its transition function `next`, and the laws it keeps;
  - `udp_transmission.rs`: cutting messages into datagrams and reassembling them;
  - `tool.rs`: reading a count typed by the user;
  - `kmeans_struct.rs`, `ledger_struct.rs`: the data types.
- `app/` — the program: sockets, threads, JSON encoding, the window that draws
  the clusters, and the floating-point side (coordinates, distances, means).
- `tests/` — tests of the library.
