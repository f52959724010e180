# kadmium

A broadcast protocol based on Kadcast, with its routing logic verified by Verus.

- `src/` is the verified library:
  - `id.rs`: 256-bit identifiers and their XOR-based log2 distance (the position of the most
    significant differing bit).
  - `addr.rs`: peer socket addresses as plain values.
  - `message.rs`: the protocol messages and what a router answers.
  - `routing_table.rs`: the buckets, peer list and identifier list shared by the routers.
  - `tcp/router.rs`: the TCP router, with its state described by `TcpRouterView`.
  - `quic.rs`: the QUIC router (peers and buckets only).
  - `closest.rs`: selecting the candidates closest to an identifier.
  - `peering.rs`: the decisions of the periodic peer discovery.
  - `assoc.rs`: association lists read as maps.
  - `laws.rs`: properties of the library proved over the states the contracts describe.
  - `outside.rs`: the calls into `rand`, `time` and `bytes`, with the contracts the proofs rely on.
- `app/` holds what runs around the library: the wire encoding (bincode) and framing
  (tokio-util) of messages, the router shared between tasks behind a lock, and the periodic
  tasks of a node (tokio).
- `tests/` exercises the library on concrete values.
