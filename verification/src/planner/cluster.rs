//! Cluster membership and cache-aware routing of queries to worker nodes.

use vstd::prelude::*;
use crate::strings::str_eq;

verus! {

/// A node of the cluster as the planner knows it.
#[derive(Debug, Clone)]
pub struct NodeInfo {
    pub node_id: String,
    pub address: String,
    pub role: NodeRole,
    pub hardware: HardwareConfig,
    pub available_vram: u64,
    pub is_healthy: bool,
}

#[derive(Debug, Clone, Copy, PartialEq, Eq, Structural)]
pub enum NodeRole {
    ControlPlane,
    DataWorker,
    Mixed,
}

#[derive(Debug, Clone, Copy)]
pub struct HardwareConfig {
    pub gpu_count: usize,
    pub total_vram: u64,
    pub has_tensor_cores: bool,
}

/// The registered nodes, in registration order.
pub struct ClusterPlanner {
    nodes: Vec<NodeInfo>,
}

/// A node that may serve queries: healthy and not a pure control plane.
pub open spec fn is_healthy_worker(n: NodeInfo) -> bool {
    n.is_healthy && n.role != NodeRole::ControlPlane
}

/// `i` is the first position of a node with id `id`.
pub open spec fn first_node_position(s: Seq<NodeInfo>, id: Seq<char>, i: int) -> bool {
    0 <= i < s.len() && s[i].node_id@ == id && forall|j: int| 0 <= j < i ==> (#[trigger] s[j]).node_id@ != id
}

/// No node id occurs twice.
pub open spec fn node_ids_unique(s: Seq<NodeInfo>) -> bool {
    forall|i: int, j: int| 0 <= i < s.len() && 0 <= j < s.len() && i != j ==> (#[trigger] s[i]).node_id@ != (#[trigger] s[j]).node_id@
}

/// `best` is the worker that routing picks among `w`: it has the most
/// available VRAM, more than zero, and no earlier worker has as much.
pub open spec fn is_route_choice(w: Seq<NodeInfo>, best: int) -> bool {
    &&& 0 <= best < w.len()
    &&& w[best].available_vram > 0
    &&& forall|j: int| 0 <= j < w.len() ==> (#[trigger] w[j]).available_vram <= w[best].available_vram
    &&& forall|j: int| 0 <= j < best ==> (#[trigger] w[j]).available_vram < w[best].available_vram
}

/// The nodes `s` after registering `node`: it replaces the first node with
/// its id, or is appended when there is none.
pub open spec fn registered_nodes(s: Seq<NodeInfo>, node: NodeInfo) -> Seq<NodeInfo> {
    if exists|i: int| first_node_position(s, node.node_id@, i) {
        s.update(choose|i: int| first_node_position(s, node.node_id@, i), node)
    } else {
        s.push(node)
    }
}

/// The nodes of `s` that may serve queries, in order.
pub open spec fn healthy_of(s: Seq<NodeInfo>) -> Seq<NodeInfo> {
    s.filter(|n: NodeInfo| is_healthy_worker(n))
}

impl ClusterPlanner {
    /// No two registered nodes share an id.
    #[verifier::type_invariant]
    spec fn wf(&self) -> bool {
        node_ids_unique(self.nodes@)
    }

    /// The registered nodes, in registration order.
    pub closed spec fn nodes(&self) -> Seq<NodeInfo> {
        self.nodes@
    }

    /// The nodes that may serve queries, in registration order.
    pub open spec fn healthy_workers(&self) -> Seq<NodeInfo> {
        healthy_of(self.nodes())
    }

    /// A planner with no nodes.
    pub fn new() -> (p: Self)
        ensures
            p.nodes() == Seq::<NodeInfo>::empty(),
    {
        ClusterPlanner { nodes: Vec::new() }
    }

    /// Registers `node`, replacing the node registered under the same id.
    /// The ids stay distinct, so afterwards the healthy workers hold `node`
    /// exactly when it is healthy and not a pure control plane, and hold
    /// every node of another id exactly when they held it before.
    pub fn register_node(&mut self, node: NodeInfo)
        ensures
            final(self).nodes() == registered_nodes(old(self).nodes(), node),
            node_ids_unique(final(self).nodes()),
            node_ids_unique(final(self).healthy_workers()),
            final(self).healthy_workers().contains(node) <==> is_healthy_worker(node),
            forall|other: NodeInfo| other.node_id@ != node.node_id@ ==>
                (#[trigger] final(self).healthy_workers().contains(other) <==> old(self).healthy_workers().contains(other)),
    {
        proof { use_type_invariant(&*self); }
        let ghost s0 = self.nodes@;
        let mut v: Vec<NodeInfo> = Vec::new();
        std::mem::swap(&mut v, &mut self.nodes);
        let n = v.len();
        let mut i: usize = 0;
        let mut pos: Option<usize> = None;
        while i < n
            invariant_except_break
                pos is None,
            invariant
                n == v@.len(),
                v@ == s0,
                i <= n,
                forall|j: int| 0 <= j < i ==> (#[trigger] s0[j]).node_id@ != node.node_id@,
            ensures
                match pos {
                    Some(p) => first_node_position(s0, node.node_id@, p as int),
                    None => forall|j: int| 0 <= j < n ==> (#[trigger] s0[j]).node_id@ != node.node_id@,
                },
            decreases n - i,
        {
            if str_eq(v[i].node_id.as_str(), node.node_id.as_str()) {
                pos = Some(i);
                break;
            }
            i = i + 1;
        }
        let ghost nd = node;
        match pos {
            Some(p) => {
                proof {
                    let c = choose|c: int| first_node_position(s0, nd.node_id@, c);
                    assert(c == p as int) by {
                        if c < p { assert(s0[c].node_id@ != nd.node_id@); }
                        if c > p { assert(s0[p as int].node_id@ != nd.node_id@); }
                    };
                }
                v.set(p, node);
            },
            None => {
                proof {
                    assert(!exists|c: int| first_node_position(s0, nd.node_id@, c));
                }
                v.push(node);
            },
        }
        proof {
            assert(v@ == registered_nodes(s0, nd));
            lemma_register_then_healthy(s0, nd, nd);
            assert forall|other: NodeInfo| other.node_id@ != nd.node_id@ implies
                (#[trigger] healthy_of(v@).contains(other) <==> healthy_of(s0).contains(other)) by {
                lemma_register_then_healthy(s0, nd, other);
            };
        }
        self.nodes = v;
    }

    /// Removes every node registered under `node_id`.
    pub fn remove_node(&mut self, node_id: &str)
        ensures
            final(self).nodes() == old(self).nodes().filter(|n: NodeInfo| n.node_id@ != node_id@),
            node_ids_unique(final(self).nodes()),
    {
        proof { use_type_invariant(&*self); }
        let ghost pred = |n: NodeInfo| n.node_id@ != node_id@;
        let ghost s0 = self.nodes@;
        let mut kept: Vec<NodeInfo> = Vec::new();
        let mut rest: Vec<NodeInfo> = Vec::new();
        std::mem::swap(&mut rest, &mut self.nodes);
        // Walk the nodes front to back, keeping those with another id.
        assert(rest@ =~= s0.skip(0));
        while rest.len() > 0
            invariant
                s0 == old(self).nodes(),
                node_ids_unique(s0),
                pred == |n: NodeInfo| n.node_id@ != node_id@,
                rest@.len() <= s0.len(),
                rest@ == s0.skip(s0.len() - rest@.len()),
                kept@ == s0.take(s0.len() - rest@.len()).filter(pred),
            decreases rest@.len(),
        {
            let ghost k = s0.len() - rest@.len();
            let nd = rest.remove(0);
            assert(rest@ =~= s0.skip(k + 1));
            proof {
                assert(nd == s0[k]);
                let t = s0.take(k + 1);
                assert(t.drop_last() =~= s0.take(k));
                reveal_with_fuel(Seq::filter, 1);
                assert(t.filter(pred) == (if pred(nd) { s0.take(k).filter(pred).push(nd) } else { s0.take(k).filter(pred) }));
            }
            let ghost kept_before = kept@;
            if !str_eq(nd.node_id.as_str(), node_id) {
                kept.push(nd);
                assert(pred(nd));
                assert(kept@ == kept_before.push(nd));
            } else {
                assert(!pred(nd));
            }
            assert(k + 1 == s0.len() - rest@.len());
            assert(kept@ == s0.take(k + 1).filter(pred));
        }
        assert(s0.take(s0.len() as int) =~= s0);
        proof {
            lemma_filter_keeps_unique(s0, pred);
        }
        self.nodes = kept;
    }

    /// The nodes that may serve queries, in registration order.
    pub fn get_healthy_workers(&self) -> (r: Vec<&NodeInfo>)
        ensures
            r@.map_values(|n: &NodeInfo| *n) == self.healthy_workers(),
            node_ids_unique(self.nodes()),
            node_ids_unique(self.healthy_workers()),
    {
        proof {
            use_type_invariant(self);
            lemma_filter_keeps_unique(self.nodes@, |n: NodeInfo| is_healthy_worker(n));
        }
        let ghost pred = |n: NodeInfo| is_healthy_worker(n);
        let mut r: Vec<&NodeInfo> = Vec::new();
        let n = self.nodes.len();
        let mut i: usize = 0;
        while i < n
            invariant
                n == self.nodes@.len(),
                pred == |n: NodeInfo| is_healthy_worker(n),
                i <= n,
                r@.map_values(|x: &NodeInfo| *x) == self.nodes@.take(i as int).filter(pred),
            decreases n - i,
        {
            let nd = &self.nodes[i];
            proof {
                let t = self.nodes@.take(i + 1);
                assert(t.drop_last() =~= self.nodes@.take(i as int));
                reveal_with_fuel(Seq::filter, 1);
                assert(t.filter(pred) == (if pred(*nd) { self.nodes@.take(i as int).filter(pred).push(*nd) }
                    else { self.nodes@.take(i as int).filter(pred) }));
            }
            if nd.is_healthy && nd.role != NodeRole::ControlPlane {
                let ghost before = r@;
                r.push(nd);
                assert(r@.map_values(|x: &NodeInfo| *x) =~= before.map_values(|x: &NodeInfo| *x).push(*nd));
            }
            i = i + 1;
        }
        assert(self.nodes@.take(n as int) =~= self.nodes@);
        r
    }

    /// The id of the healthy worker with the most available VRAM (the first
    /// such in registration order), or `None` when no healthy worker has any.
    pub fn route_query_to_node(&self, _model: &str, _required_vram: u64) -> (r: Option<String>)
        ensures
            match r {
                Some(id) => exists|b: int| is_route_choice(self.healthy_workers(), b)
                    && id@ == self.healthy_workers()[b].node_id@,
                None => forall|j: int| 0 <= j < self.healthy_workers().len()
                    ==> (#[trigger] self.healthy_workers()[j]).available_vram == 0,
            },
    {
        let workers = self.get_healthy_workers();
        let ghost w = self.healthy_workers();
        let mut best: Option<usize> = None;
        let mut max_vram: u64 = 0;
        let mut i: usize = 0;
        while i < workers.len()
            invariant
                workers@.map_values(|n: &NodeInfo| *n) == w,
                i <= workers@.len(),
                forall|j: int| 0 <= j < i ==> (#[trigger] w[j]).available_vram <= max_vram,
                match best {
                    Some(b) => b < i && w[b as int].available_vram == max_vram && max_vram > 0
                        && forall|j: int| 0 <= j < b ==> (#[trigger] w[j]).available_vram < max_vram,
                    None => max_vram == 0,
                },
            decreases workers@.len() - i,
        {
            assert(w[i as int] == *workers@[i as int]);
            if workers[i].available_vram > max_vram {
                max_vram = workers[i].available_vram;
                best = Some(i);
            }
            i = i + 1;
        }
        match best {
            Some(b) => {
                assert(w[b as int] == *workers@[b as int]);
                assert(is_route_choice(w, b as int));
                Some(workers[b].node_id.clone())
            },
            None => None,
        }
    }
}

/// Law: a removed node is never routed to. Among the nodes left after
/// removing `id`, the worker that routing picks has another id.
pub proof fn lemma_removed_not_routed(nodes: Seq<NodeInfo>, id: Seq<char>, best: int)
    requires
        is_route_choice(nodes.filter(|n: NodeInfo| n.node_id@ != id).filter(|n: NodeInfo| is_healthy_worker(n)), best),
    ensures
        nodes.filter(|n: NodeInfo| n.node_id@ != id).filter(|n: NodeInfo| is_healthy_worker(n))[best].node_id@ != id,
{
    let kept = nodes.filter(|n: NodeInfo| n.node_id@ != id);
    let w = kept.filter(|n: NodeInfo| is_healthy_worker(n));
    kept.lemma_filter_pred(|n: NodeInfo| is_healthy_worker(n), best);
    assert(w.contains(w[best]));
    kept.lemma_filter_contains_rev(|n: NodeInfo| is_healthy_worker(n), w[best]);
    let k = choose|k: int| 0 <= k < kept.len() && kept[k] == w[best];
    nodes.lemma_filter_pred(|n: NodeInfo| n.node_id@ != id, k);
}

/// What a filtered list holds: the elements of the list that pass the filter.
proof fn lemma_filter_holds(s: Seq<NodeInfo>, pred: spec_fn(NodeInfo) -> bool, m: NodeInfo)
    ensures
        s.filter(pred).contains(m) <==> (s.contains(m) && pred(m)),
{
    if s.filter(pred).contains(m) {
        s.lemma_filter_contains_rev(pred, m);
        let k = choose|k: int| 0 <= k < s.filter(pred).len() && s.filter(pred)[k] == m;
        s.lemma_filter_pred(pred, k);
    }
    if s.contains(m) && pred(m) {
        let k = choose|k: int| 0 <= k < s.len() && s[k] == m;
        s.lemma_filter_contains(pred, k);
    }
}

/// Law: registering a node and then asking for the healthy workers. When
/// the registered ids are unique, the healthy workers after registering
/// `node` have unique ids (so at most one has its id), hold `node` exactly
/// when it is healthy and not a pure control plane, and hold any node with
/// another id exactly when they held it before.
pub proof fn lemma_register_then_healthy(s: Seq<NodeInfo>, node: NodeInfo, other: NodeInfo)
    requires
        node_ids_unique(s),
    ensures
        node_ids_unique(registered_nodes(s, node)),
        node_ids_unique(healthy_of(registered_nodes(s, node))),
        healthy_of(registered_nodes(s, node)).contains(node) <==> is_healthy_worker(node),
        other.node_id@ != node.node_id@ ==> (
            healthy_of(registered_nodes(s, node)).contains(other) <==> healthy_of(s).contains(other)),
{
    let pred = |n: NodeInfo| is_healthy_worker(n);
    let r = registered_nodes(s, node);
    if exists|i: int| first_node_position(s, node.node_id@, i) {
        let i = choose|i: int| first_node_position(s, node.node_id@, i);
        assert(r == s.update(i, node));
        assert forall|a: int, b: int| 0 <= a < r.len() && 0 <= b < r.len() && a != b implies
            (#[trigger] r[a]).node_id@ != (#[trigger] r[b]).node_id@ by {
            assert(r[a].node_id@ == s[a].node_id@ && r[b].node_id@ == s[b].node_id@);
        };
        assert(r[i] == node);
        if other.node_id@ != node.node_id@ {
            if r.contains(other) {
                let k = choose|k: int| 0 <= k < r.len() && r[k] == other;
                assert(k != i);
                assert(s[k] == other);
            }
            if s.contains(other) {
                let k = choose|k: int| 0 <= k < s.len() && s[k] == other;
                assert(k != i);
                assert(r[k] == other);
            }
        }
    } else {
        assert(r == s.push(node));
        assert forall|a: int| 0 <= a < s.len() implies (#[trigger] s[a]).node_id@ != node.node_id@ by {
            if s[a].node_id@ == node.node_id@ {
                if forall|j: int| 0 <= j < a ==> (#[trigger] s[j]).node_id@ != node.node_id@ {
                    assert(first_node_position(s, node.node_id@, a));
                } else {
                    let j = choose|j: int| 0 <= j < a && (#[trigger] s[j]).node_id@ == node.node_id@;
                    assert(s[j].node_id@ == s[a].node_id@);
                }
            }
        };
        assert forall|a: int, b: int| 0 <= a < r.len() && 0 <= b < r.len() && a != b implies
            (#[trigger] r[a]).node_id@ != (#[trigger] r[b]).node_id@ by {
            if a < s.len() && b < s.len() {
                assert(r[a] == s[a] && r[b] == s[b]);
            } else if a < s.len() {
                assert(r[a] == s[a]);
            } else {
                assert(r[b] == s[b]);
            }
        };
        assert(r[s.len() as int] == node);
        if other.node_id@ != node.node_id@ {
            if r.contains(other) {
                let k = choose|k: int| 0 <= k < r.len() && r[k] == other;
                assert(k < s.len());
                assert(s[k] == other);
            }
            if s.contains(other) {
                let k = choose|k: int| 0 <= k < s.len() && s[k] == other;
                assert(r[k] == other);
            }
        }
    }
    assert(r.contains(node));
    lemma_filter_keeps_unique(r, pred);
    lemma_filter_holds(r, pred, node);
    lemma_filter_holds(r, pred, other);
    lemma_filter_holds(s, pred, other);
}

/// Filtering keeps the ids of a list unique.
proof fn lemma_filter_keeps_unique(s: Seq<NodeInfo>, pred: spec_fn(NodeInfo) -> bool)
    requires
        node_ids_unique(s),
    ensures
        node_ids_unique(s.filter(pred)),
    decreases s.len(),
{
    reveal_with_fuel(Seq::filter, 1);
    if s.len() > 0 {
        let d = s.drop_last();
        assert(node_ids_unique(d)) by {
            assert forall|a: int, b: int| 0 <= a < d.len() && 0 <= b < d.len() && a != b implies
                (#[trigger] d[a]).node_id@ != (#[trigger] d[b]).node_id@ by {
                assert(d[a] == s[a] && d[b] == s[b]);
            };
        };
        lemma_filter_keeps_unique(d, pred);
        let f = d.filter(pred);
        if pred(s.last()) {
            let g = f.push(s.last());
            assert forall|a: int| 0 <= a < f.len() implies (#[trigger] f[a]).node_id@ != s.last().node_id@ by {
                assert(f.contains(f[a]));
                d.lemma_filter_contains_rev(pred, f[a]);
                let k = choose|k: int| 0 <= k < d.len() && d[k] == f[a];
                assert(s[k] == d[k]);
            };
            assert forall|a: int, b: int| 0 <= a < g.len() && 0 <= b < g.len() && a != b implies
                (#[trigger] g[a]).node_id@ != (#[trigger] g[b]).node_id@ by {
                if a < f.len() && b < f.len() {
                    assert(g[a] == f[a] && g[b] == f[b]);
                } else if a < f.len() {
                    assert(g[a] == f[a]);
                } else {
                    assert(g[b] == f[b]);
                }
            };
        }
    }
}

} // verus!
