# tonic-consistent-hashing-lb

Client-side consistent hashing for load-balancing gRPC requests, as a
verified library.

- `src/` (verified): the ring (`ring.rs`) and its map model (`ring_model.rs`),
  the lexicographic key order (`byte_order.rs`), ring keys from MurmurHash3
  and protobuf encoding (`hashing.rs`), nodes (`node.rs`), the decisions of
  Kubernetes node discovery (`discovery.rs`), channel selection by hash
  (`balance.rs`) and the properties proved of the ring (`laws.rs`).
- `app/`: tower services over tonic channels and the Kubernetes API calls.
- `tests/`: executable tests of the library.
