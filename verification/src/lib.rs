//! Client-side consistent hashing for load-balancing gRPC requests.
//!
//! The ring maps byte keys to upstream [`Node`]s. A node is placed on the
//! ring at the protobuf encoding of the MurmurHash3 (x86, 32-bit) hash of
//! its `host:port` identifier; a request key is routed to the first node
//! whose ring key is at or after the hashed request key, wrapping around to
//! the smallest ring key.
use vstd::prelude::*;

pub mod balance;
pub mod byte_order;
pub mod discovery;
pub mod discovery_laws;
pub mod hashing;
pub mod key_laws;
pub mod laws;
pub mod node;
pub mod ring;
pub mod ring_model;

pub use discovery::{
    nodes_from_pods, statefulset_matches, ContainerInfo, DiscoveryError, PodInfo, PodSpecInfo,
    PodStatusInfo, PortInfo,
};
pub use node::Node;
pub use ring::ConsistentHash;

verus! {

} // verus!
