//! The identity of a compute node that serves remote layer requests.

use vstd::prelude::*;

verus! {

/// A compute node of the cluster.
#[derive(Default)]
pub struct BramhaComputeNode {
    pub node_id: String,
}

} // verus!
