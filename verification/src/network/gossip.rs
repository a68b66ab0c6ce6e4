//! Membership of the gossip worker that spreads memory updates to peers.

use vstd::prelude::*;

verus! {

/// A worker that broadcasts semantic-memory updates to known peers.
pub struct GossipWorker {
    node_id: String,
    peers: Vec<String>,
}

impl GossipWorker {
    pub closed spec fn node_id(&self) -> Seq<char> {
        self.node_id@
    }

    pub closed spec fn peers(&self) -> Seq<Seq<char>> {
        self.peers@.map_values(|p: String| p@)
    }

    /// A worker for node `node_id` that gossips with `peers`.
    pub fn new(node_id: String, peers: Vec<String>) -> (w: Self)
        ensures
            w.node_id() == node_id@,
            w.peers() == peers@.map_values(|p: String| p@),
    {
        GossipWorker { node_id, peers }
    }

    /// The id of this node.
    pub fn node_id_str(&self) -> (s: &str)
        ensures
            s@ == self.node_id(),
    {
        self.node_id.as_str()
    }

    /// The peers, in the order given.
    pub fn peer_list(&self) -> (p: &Vec<String>)
        ensures
            p@.map_values(|x: String| x@) == self.peers(),
    {
        &self.peers
    }
}

} // verus!
