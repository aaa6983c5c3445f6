//! An upstream endpoint of the ring.
use vstd::prelude::*;

verus! {

/// An upstream server, addressed by host and port.
#[derive(Default, Debug, PartialEq, Eq)]
pub struct Node {
    pub host: String,
    pub port: u16,
}

impl Node {
    /// Builds a node from a host name (or address) and a port.
    pub fn new(host: &str, port: u16) -> (node: Node)
        ensures
            node.host@ == host@,
            node.port == port,
    {
        Node { host: String::from_str(host), port }
    }
}

impl Clone for Node {
    fn clone(&self) -> (node: Self)
        ensures
            node == *self,
    {
        Node { host: self.host.clone(), port: self.port }
    }
}

} // verus!
