//! Pipeline parallelism: devices are treated like the shards of a database.
//! A [`DeviceMesh`] is an ordered list of compute slots, the
//! [`ShardingPlanner`] fills them greedily with consecutive layers up to their
//! memory budgets, and a [`PipelineExecutor`] streams an activation through
//! the resulting stages in order.

use std::collections::HashMap;
use std::ops::Range;
use vstd::prelude::*;
use crate::strings::{decimal, opt_chars, parse_usize, parse_usize_str, push_decimal, to_string};
use crate::inference::manifest::{is_layer_table, manifest_pairs, ModelManifest};

verus! {

broadcast use vstd::std_specs::hash::group_hash_axioms;

/// What kind of compute resource backs a pipeline stage.
#[derive(Debug, Clone, PartialEq)]
pub enum DeviceKind {
    /// A CPU stage backed by a thread pool with `num_threads` workers.
    CpuPool { num_threads: usize },
    /// A GPU stage.
    Wgpu,
    /// A stage on another node.
    Remote { endpoint: String },
}

/// The label of a device kind: `cpu(<n>t)`, `wgpu` or `remote(<endpoint>)`.
pub open spec fn spec_label(k: DeviceKind) -> Seq<char> {
    match k {
        DeviceKind::CpuPool { num_threads } => "cpu("@ + decimal(num_threads as nat) + "t)"@,
        DeviceKind::Wgpu => "wgpu"@,
        DeviceKind::Remote { endpoint } => "remote("@ + endpoint@ + ")"@,
    }
}

impl DeviceKind {
    /// Human-readable label for logging.
    pub fn label(&self) -> (s: String)
        ensures
            s@ == spec_label(*self),
    {
        match self {
            DeviceKind::CpuPool { num_threads } => {
                let mut s = to_string("cpu(");
                push_decimal(&mut s, *num_threads as u64);
                s.append("t)");
                s
            },
            DeviceKind::Wgpu => to_string("wgpu"),
            DeviceKind::Remote { endpoint } => {
                let mut s = to_string("remote(");
                s.append(endpoint.as_str());
                s.append(")");
                s
            },
        }
    }
}

/// One slot in the device mesh: a compute unit with a memory budget.
#[derive(Debug, Clone)]
pub struct DeviceSlot {
    /// Unique identifier, e.g. `"cpu:0"`, `"cpu:1"`, `"wgpu:0"`.
    pub id: String,
    /// The kind of compute backing this slot.
    pub kind: DeviceKind,
    /// Maximum bytes this slot can hold in DRAM simultaneously.
    pub dram_budget_bytes: u64,
    /// Layer indices assigned to this slot.
    pub assigned_layers: Vec<usize>,
}

impl DeviceSlot {
    /// A slot with no layers assigned yet.
    pub fn new(id: &str, kind: DeviceKind, dram_budget_bytes: u64) -> (s: Self)
        ensures
            s.id@ == id@,
            s.kind == kind,
            s.dram_budget_bytes == dram_budget_bytes,
            s.assigned_layers@ == Seq::<usize>::empty(),
    {
        DeviceSlot { id: to_string(id), kind, dram_budget_bytes, assigned_layers: Vec::new() }
    }
}

/// The full device topology: an ordered list of pipeline stages.
#[derive(Debug, Clone)]
pub struct DeviceMesh {
    pub slots: Vec<DeviceSlot>,
}

/// The memory budgets of the slots of a mesh, in slot order.
pub open spec fn mesh_budgets(slots: Seq<DeviceSlot>) -> Seq<u64> {
    slots.map_values(|s: DeviceSlot| s.dram_budget_bytes)
}

/// The identifiers of the slots of a mesh, in slot order.
pub open spec fn mesh_ids(slots: Seq<DeviceSlot>) -> Seq<Seq<char>> {
    slots.map_values(|s: DeviceSlot| s.id@)
}

// ─────────────────────────────────────────────────────────────────────────
// The greedy fill, as mathematics
// ─────────────────────────────────────────────────────────────────────────

/// Sum of a sequence of byte counts.
pub open spec fn seq_sum(s: Seq<u64>) -> int
    decreases s.len(),
{
    if s.len() == 0 { 0 } else { seq_sum(s.drop_last()) + s.last() }
}

/// Size assumed for every layer when no sizes are known (500 MiB).
pub open spec fn default_layer_bytes() -> int {
    524288000
}

/// Size assumed for a layer whose size is not listed: the integer mean of the
/// listed sizes, or [`default_layer_bytes`] when none is listed.
pub open spec fn avg_layer_bytes(sizes: Seq<u64>) -> int {
    if sizes.len() == 0 { default_layer_bytes() } else { seq_sum(sizes) / (sizes.len() as int) }
}

/// Size of layer `l`: its listed size, else the average.
pub open spec fn layer_bytes(sizes: Seq<u64>, l: int) -> int {
    if 0 <= l < sizes.len() { sizes[l] as int } else { avg_layer_bytes(sizes) }
}

/// One step of the greedy fill: from (slot, bytes used in it), place layer `l`.
/// The layer moves on to the next slot when there is one and the current
/// slot's budget would be exceeded.
pub open spec fn greedy_step(budgets: Seq<u64>, sizes: Seq<u64>, st: (int, int), l: int) -> (int, int) {
    let size = layer_bytes(sizes, l);
    if st.0 + 1 < budgets.len() && st.1 + size > budgets[st.0] as int {
        (st.0 + 1, size)
    } else {
        (st.0, st.1 + size)
    }
}

/// The (slot, bytes used in it) after layers `0..n` were placed.
pub open spec fn greedy_state(budgets: Seq<u64>, sizes: Seq<u64>, n: nat) -> (int, int)
    decreases n,
{
    if n == 0 {
        (0, 0)
    } else {
        greedy_step(budgets, sizes, greedy_state(budgets, sizes, (n - 1) as nat), n - 1)
    }
}

/// The slot that the greedy fill gives layer `l`.
pub open spec fn slot_of_layer(budgets: Seq<u64>, sizes: Seq<u64>, l: int) -> int {
    greedy_state(budgets, sizes, (l + 1) as nat).0
}

/// How many of the layers `0..n` land in a slot before slot `s`.
pub open spec fn layers_before_slot(budgets: Seq<u64>, sizes: Seq<u64>, n: nat, s: int) -> nat
    decreases n,
{
    if n == 0 {
        0
    } else {
        layers_before_slot(budgets, sizes, (n - 1) as nat, s) + if slot_of_layer(budgets, sizes, n - 1) < s { 1nat } else { 0nat }
    }
}

/// How many of the layers `0..n` land in slot `s`.
pub open spec fn layers_in_slot(budgets: Seq<u64>, sizes: Seq<u64>, n: nat, s: int) -> int {
    layers_before_slot(budgets, sizes, n, s + 1) - layers_before_slot(budgets, sizes, n, s)
}

/// The stages of a plan over the first `k` slots: for each slot in order that
/// received layers, its id and the range of the layers it received.
pub open spec fn planned_stages(ids: Seq<Seq<char>>, budgets: Seq<u64>, sizes: Seq<u64>, n: nat, k: nat) -> Seq<(Seq<char>, int, int)>
    decreases k,
{
    if k == 0 {
        Seq::empty()
    } else {
        let prev = planned_stages(ids, budgets, sizes, n, (k - 1) as nat);
        if layers_in_slot(budgets, sizes, n, k - 1) > 0 {
            prev.push((ids[k - 1], layers_before_slot(budgets, sizes, n, k - 1) as int, layers_before_slot(budgets, sizes, n, k as int) as int))
        } else {
            prev
        }
    }
}

/// The greedy fill of `n` layers stays within `u64` arithmetic (the planner
/// sums the listed sizes and the bytes of the current slot when there are two
/// slots or more).
pub open spec fn plan_fits(budgets: Seq<u64>, sizes: Seq<u64>, n: nat) -> bool {
    budgets.len() >= 2 && n > 0 ==> {
        &&& seq_sum(sizes) <= u64::MAX
        &&& forall|l: nat| l < n ==> #[trigger] greedy_state(budgets, sizes, l).1 + layer_bytes(sizes, l as int) <= u64::MAX
    }
}

/// `v` lists, in increasing order, exactly the layers among `0..n` that the
/// greedy fill gives slot `s`.
pub open spec fn holds_exactly(v: Seq<usize>, budgets: Seq<u64>, sizes: Seq<u64>, n: nat, s: int) -> bool {
    &&& forall|i: int, j: int| 0 <= i < j < v.len() ==> v[i] < v[j]
    &&& forall|i: int| 0 <= i < v.len() ==> v[i] < n && slot_of_layer(budgets, sizes, v[i] as int) == s
    &&& forall|l: int| 0 <= l < n && slot_of_layer(budgets, sizes, l) == s ==> v.contains(l as usize)
}

// ─────────────────────────────────────────────────────────────────────────
// Lemmas on the greedy fill
// ─────────────────────────────────────────────────────────────────────────

/// The slot index of the fill stays within the mesh and never decreases by
/// more than it may: each layer keeps the slot or moves to the next one.
pub proof fn lemma_greedy_state_bounds(budgets: Seq<u64>, sizes: Seq<u64>, n: nat)
    requires
        budgets.len() >= 1,
    ensures
        0 <= greedy_state(budgets, sizes, n).0 < budgets.len(),
    decreases n,
{
    if n > 0 {
        lemma_greedy_state_bounds(budgets, sizes, (n - 1) as nat);
    }
}

/// With a single slot every layer lands in it.
pub proof fn lemma_single_slot(budgets: Seq<u64>, sizes: Seq<u64>, n: nat)
    requires
        budgets.len() == 1,
    ensures
        greedy_state(budgets, sizes, n).0 == 0,
    decreases n,
{
    if n > 0 {
        lemma_single_slot(budgets, sizes, (n - 1) as nat);
    }
}

/// No layer lands before slot 0.
pub proof fn lemma_before_slot_zero(budgets: Seq<u64>, sizes: Seq<u64>, n: nat)
    ensures
        layers_before_slot(budgets, sizes, n, 0) == 0,
    decreases n,
{
    if n > 0 {
        lemma_before_slot_zero(budgets, sizes, (n - 1) as nat);
        lemma_greedy_nonneg(budgets, sizes, n);
    }
}

/// Every layer lands before the end of the mesh.
pub proof fn lemma_before_slot_end(budgets: Seq<u64>, sizes: Seq<u64>, n: nat)
    requires
        budgets.len() >= 1,
    ensures
        layers_before_slot(budgets, sizes, n, budgets.len() as int) == n,
    decreases n,
{
    if n > 0 {
        lemma_before_slot_end(budgets, sizes, (n - 1) as nat);
        lemma_greedy_state_bounds(budgets, sizes, n);
    }
}

// ─────────────────────────────────────────────────────────────────────────

/// `m` is the mesh for `stages` pipeline stages (see
/// [`DeviceMesh::for_stage_count`]).
pub open spec fn is_stage_mesh(m: DeviceMesh, stages: usize, use_wgpu: bool, total_threads: usize, capped_ram_bytes: u64) -> bool {
    let threads = if total_threads / (if stages == 0 { 1 } else { stages }) == 0 { 1 } else {
        total_threads / (if stages == 0 { 1 } else { stages }) };
    if stages <= 1 {
        &&& m.slots@.len() == 1
        &&& m.slots@[0].id@ == "cpu:0"@
        &&& m.slots@[0].kind == (DeviceKind::CpuPool { num_threads: if total_threads == 0 { 1 } else { total_threads } })
        &&& m.slots@[0].dram_budget_bytes == capped_ram_bytes
        &&& m.slots@[0].assigned_layers@.len() == 0
    } else if use_wgpu && stages == 2 {
        &&& m.slots@.len() == 2
        &&& m.slots@[0].id@ == "cpu:0"@
        &&& m.slots@[1].id@ == "wgpu:0"@
        &&& m.slots@[0].kind == (DeviceKind::CpuPool { num_threads: (threads * 2) as usize })
        &&& m.slots@[1].kind == DeviceKind::Wgpu
        &&& m.slots@[0].dram_budget_bytes == capped_ram_bytes
        &&& m.slots@[1].dram_budget_bytes == 4294967296u64
        &&& m.slots@[0].assigned_layers@.len() == 0
        &&& m.slots@[1].assigned_layers@.len() == 0
    } else {
        &&& m.slots@.len() == stages
        &&& forall|i: int| 0 <= i < stages ==> {
            &&& (#[trigger] m.slots@[i]).id@ == "cpu:"@ + decimal(i as nat)
            &&& m.slots@[i].kind == (DeviceKind::CpuPool { num_threads: threads })
            &&& m.slots@[i].dram_budget_bytes == capped_ram_bytes / (stages as u64)
            &&& m.slots@[i].assigned_layers@.len() == 0
        }
    }
}

/// The number of pipeline stages that a setting asks for: the setting as a
/// `usize` when it parses, else 1.
pub open spec fn stages_setting(value: Option<Seq<char>>) -> nat {
    match value {
        Some(v) => match parse_usize(v) {
            Some(n) => n,
            None => 1,
        },
        None => 1,
    }
}

/// `rayon::current_num_threads`: the number of threads of the current
/// pool. Which number depends on the machine and on how the pool was built,
/// so only what holds of every pool is stated: a pool has at least one
/// thread (rayon sizes it from a positive setting or from the available
/// parallelism, and falls back to one).
#[verifier::external_body]
fn pool_threads() -> (r: usize)
    ensures
        r >= 1,
{
    rayon::current_num_threads()
}

impl DeviceMesh {
    /// A single CPU slot with `num_threads` workers (at least one) and the
    /// whole capped RAM budget.
    pub fn single_cpu(num_threads: usize, capped_ram_bytes: u64) -> (m: Self)
        ensures
            m.slots@.len() == 1,
            m.slots@[0].id@ == "cpu:0"@,
            m.slots@[0].kind == (DeviceKind::CpuPool { num_threads: if num_threads == 0 { 1 } else { num_threads } }),
            m.slots@[0].dram_budget_bytes == capped_ram_bytes,
            m.slots@[0].assigned_layers@.len() == 0,
    {
        let threads = if num_threads == 0 { 1 } else { num_threads };
        let mut slots = Vec::new();
        slots.push(DeviceSlot::new("cpu:0", DeviceKind::CpuPool { num_threads: threads }, capped_ram_bytes));
        DeviceMesh { slots }
    }

    /// Two CPU stages with `threads_per_stage` workers each, splitting the
    /// capped RAM budget in halves.
    pub fn dual_cpu(threads_per_stage: usize, capped_ram_bytes: u64) -> (m: Self)
        ensures
            m.slots@.len() == 2,
            m.slots@[0].id@ == "cpu:0"@,
            m.slots@[1].id@ == "cpu:1"@,
            m.slots@[0].kind == (DeviceKind::CpuPool { num_threads: threads_per_stage }),
            m.slots@[1].kind == (DeviceKind::CpuPool { num_threads: threads_per_stage }),
            m.slots@[0].dram_budget_bytes == capped_ram_bytes / 2,
            m.slots@[1].dram_budget_bytes == capped_ram_bytes / 2,
            m.slots@[0].assigned_layers@.len() == 0,
            m.slots@[1].assigned_layers@.len() == 0,
    {
        let budget = capped_ram_bytes / 2;
        let mut slots = Vec::new();
        slots.push(DeviceSlot::new("cpu:0", DeviceKind::CpuPool { num_threads: threads_per_stage }, budget));
        slots.push(DeviceSlot::new("cpu:1", DeviceKind::CpuPool { num_threads: threads_per_stage }, budget));
        DeviceMesh { slots }
    }

    /// A CPU stage with the capped RAM budget followed by a GPU stage of 4 GiB.
    pub fn cpu_gpu(cpu_threads: usize, capped_ram_bytes: u64) -> (m: Self)
        ensures
            m.slots@.len() == 2,
            m.slots@[0].id@ == "cpu:0"@,
            m.slots@[1].id@ == "wgpu:0"@,
            m.slots@[0].kind == (DeviceKind::CpuPool { num_threads: cpu_threads }),
            m.slots@[1].kind == DeviceKind::Wgpu,
            m.slots@[0].dram_budget_bytes == capped_ram_bytes,
            m.slots@[1].dram_budget_bytes == 4294967296u64,
            m.slots@[0].assigned_layers@.len() == 0,
            m.slots@[1].assigned_layers@.len() == 0,
    {
        let mut slots = Vec::new();
        slots.push(DeviceSlot::new("cpu:0", DeviceKind::CpuPool { num_threads: cpu_threads }, capped_ram_bytes));
        slots.push(DeviceSlot::new("wgpu:0", DeviceKind::Wgpu, 4294967296u64));
        DeviceMesh { slots }
    }

    /// The mesh for a configured number of pipeline stages, on a machine with
    /// `total_threads` worker threads and `capped_ram_bytes` of usable RAM.
    /// One stage or fewer gives [`DeviceMesh::single_cpu`]; two stages with
    /// `use_wgpu` give [`DeviceMesh::cpu_gpu`]; otherwise there are `stages`
    /// CPU slots `cpu:0`, `cpu:1`, … sharing threads and RAM evenly.
    pub fn for_stage_count(stages: usize, use_wgpu: bool, total_threads: usize, capped_ram_bytes: u64) -> (m: Self)
        ensures
            is_stage_mesh(m, stages, use_wgpu, total_threads, capped_ram_bytes),
    {
        let divisor = if stages == 0 { 1 } else { stages };
        let threads = if total_threads / divisor == 0 { 1 } else { total_threads / divisor };
        if stages <= 1 {
            return Self::single_cpu(total_threads, capped_ram_bytes);
        }
        if use_wgpu && stages == 2 {
            assert(threads * 2 <= if total_threads < 2 { 2 } else { total_threads }) by (nonlinear_arith)
                requires
                    threads == if total_threads / 2 == 0 { 1 } else { total_threads / 2 },
            ;
            return Self::cpu_gpu(threads * 2, capped_ram_bytes);
        }
        let budget = capped_ram_bytes / (stages as u64);
        let mut slots: Vec<DeviceSlot> = Vec::new();
        let mut i: usize = 0;
        while i < stages
            invariant
                i <= stages,
                slots@.len() == i,
                forall|j: int| 0 <= j < i ==> {
                    &&& (#[trigger] slots@[j]).id@ == "cpu:"@ + decimal(j as nat)
                    &&& slots@[j].kind == (DeviceKind::CpuPool { num_threads: threads })
                    &&& slots@[j].dram_budget_bytes == budget
                    &&& slots@[j].assigned_layers@.len() == 0
                },
            decreases stages - i,
        {
            let mut id = to_string("cpu:");
            push_decimal(&mut id, i as u64);
            slots.push(DeviceSlot::new(id.as_str(), DeviceKind::CpuPool { num_threads: threads }, budget));
            i = i + 1;
        }
        DeviceMesh { slots }
    }

    /// The mesh that the pipeline settings ask for: the number of stages
    /// from `stages_value` (1 when absent or not a number), a GPU stage when
    /// `use_wgpu`, the threads of the current worker pool, and
    /// `capped_ram_bytes` of usable RAM.
    pub fn from_settings(stages_value: Option<&str>, use_wgpu: bool, capped_ram_bytes: u64) -> (m: Self)
        ensures
            exists|threads: usize| #[trigger] is_stage_mesh(m, stages_setting(opt_chars(stages_value)) as usize,
                use_wgpu, threads, capped_ram_bytes),
    {
        let stages: usize = match stages_value {
            Some(v) => match parse_usize_str(v) {
                Some(n) => n,
                None => 1,
            },
            None => 1,
        };
        assert(stages as nat == stages_setting(opt_chars(stages_value)));
        let threads = pool_threads();
        let m = Self::for_stage_count(stages, use_wgpu, threads, capped_ram_bytes);
        assert(is_stage_mesh(m, stages_setting(opt_chars(stages_value)) as usize, use_wgpu, threads, capped_ram_bytes));
        m
    }

    pub fn num_slots(&self) -> (n: usize)
        ensures
            n == self.slots@.len(),
    {
        self.slots.len()
    }

    /// The first slot whose assigned layers contain `layer_idx`.
    pub fn slot_for_layer(&self, layer_idx: usize) -> (r: Option<usize>)
        ensures
            match r {
                Some(si) => si < self.slots@.len()
                    && self.slots@[si as int].assigned_layers@.contains(layer_idx)
                    && forall|t: int| 0 <= t < si ==> !self.slots@[t].assigned_layers@.contains(layer_idx),
                None => forall|t: int| 0 <= t < self.slots@.len() ==> !self.slots@[t].assigned_layers@.contains(layer_idx),
            },
    {
        let mut si: usize = 0;
        while si < self.slots.len()
            invariant
                si <= self.slots@.len(),
                forall|t: int| 0 <= t < si ==> !self.slots@[t].assigned_layers@.contains(layer_idx),
            decreases self.slots@.len() - si,
        {
            let layers = &self.slots[si].assigned_layers;
            let mut j: usize = 0;
            while j < layers.len()
                invariant
                    si < self.slots@.len(),
                    forall|t: int| 0 <= t < si ==> !self.slots@[t].assigned_layers@.contains(layer_idx),
                    layers@ == self.slots@[si as int].assigned_layers@,
                    j <= layers@.len(),
                    forall|k: int| 0 <= k < j ==> layers@[k] != layer_idx,
                decreases layers@.len() - j,
            {
                if layers[j] == layer_idx {
                    assert(layers@[j as int] == layer_idx);
                    return Some(si);
                }
                j = j + 1;
            }
            assert(!self.slots@[si as int].assigned_layers@.contains(layer_idx)) by {
                if self.slots@[si as int].assigned_layers@.contains(layer_idx) {
                    let k = choose|k: int| 0 <= k < layers@.len() && layers@[k] == layer_idx;
                }
            };
            si = si + 1;
        }
        None
    }
}


/// Maps each model layer index to a slot of the device mesh.
#[derive(Debug, Clone)]
pub struct LayerAssignment {
    /// layer index → slot id
    pub map: HashMap<usize, String>,
    /// Ordered list of (slot id, contiguous layer range) for the executor.
    pub stages: Vec<(String, Range<usize>)>,
}

/// `v` is the executable form of the stage list `p`.
pub open spec fn stages_match(v: Seq<(String, Range<usize>)>, p: Seq<(Seq<char>, int, int)>) -> bool {
    &&& v.len() == p.len()
    &&& forall|i: int| 0 <= i < v.len() ==> {
        &&& (#[trigger] v[i]).0@ == p[i].0
        &&& v[i].1.start == p[i].1
        &&& v[i].1.end == p[i].2
    }
}

/// `new_slots` and `a` are what planning `n` layers of sizes `sizes` over
/// `old_slots` gives: the slots keep their ids, kinds and budgets and hold
/// exactly the layers the greedy fill gives them; the map sends every layer
/// to its slot's id; the stages list the non-empty slots with their ranges.
pub open spec fn is_plan(old_slots: Seq<DeviceSlot>, new_slots: Seq<DeviceSlot>, a: LayerAssignment, sizes: Seq<u64>, n: usize) -> bool {
    &&& new_slots.len() == old_slots.len()
    &&& forall|s: int| 0 <= s < old_slots.len() ==> {
        &&& (#[trigger] new_slots[s]).id == old_slots[s].id
        &&& new_slots[s].kind == old_slots[s].kind
        &&& new_slots[s].dram_budget_bytes == old_slots[s].dram_budget_bytes
        &&& holds_exactly(new_slots[s].assigned_layers@, mesh_budgets(old_slots), sizes, n as nat, s)
    }
    &&& old_slots.len() == 0 ==> a.map@.dom() == Set::<usize>::empty()
    &&& old_slots.len() > 0 ==> a.map@.dom() == Set::new(|l: usize| l < n)
    &&& forall|l: usize| l < n && old_slots.len() > 0 ==> (#[trigger] a.map@[l])@
        == old_slots[slot_of_layer(mesh_budgets(old_slots), sizes, l as int)].id@
    &&& stages_match(a.stages@, planned_stages(mesh_ids(old_slots), mesh_budgets(old_slots), sizes, n as nat, old_slots.len()))
}

impl LayerAssignment {
    /// The slot id that `layer_idx` is assigned to.
    pub fn slot_for(&self, layer_idx: usize) -> (r: Option<&str>)
        ensures
            match r {
                Some(id) => self.map@.contains_key(layer_idx) && id@ == self.map@[layer_idx]@,
                None => !self.map@.contains_key(layer_idx),
            },
    {
        match self.map.get(&layer_idx) {
            Some(s) => Some(s.as_str()),
            None => None,
        }
    }
}

/// Two plans agree: slot by slot the same ids, kinds, budgets and assigned
/// layers; the same layers mapped to the same slot ids; the same stages.
pub open spec fn plans_agree(s1: Seq<DeviceSlot>, a1: LayerAssignment, s2: Seq<DeviceSlot>, a2: LayerAssignment) -> bool {
    &&& s1.len() == s2.len()
    &&& forall|s: int| 0 <= s < s1.len() ==> {
        &&& (#[trigger] s1[s]).id@ == s2[s].id@
        &&& s1[s].kind == s2[s].kind
        &&& s1[s].dram_budget_bytes == s2[s].dram_budget_bytes
        &&& s1[s].assigned_layers@ == s2[s].assigned_layers@
    }
    &&& a1.map@.dom() == a2.map@.dom()
    &&& forall|l: usize| a1.map@.contains_key(l) ==> (#[trigger] a1.map@[l])@ == a2.map@[l]@
    &&& a1.stages@.len() == a2.stages@.len()
    &&& forall|i: int| 0 <= i < a1.stages@.len() ==> {
        &&& (#[trigger] a1.stages@[i]).0@ == a2.stages@[i].0@
        &&& a1.stages@[i].1 == a2.stages@[i].1
    }
}

/// Two increasing lists with the same elements are the same list.
proof fn lemma_increasing_same_elements(v: Seq<usize>, w: Seq<usize>)
    requires
        forall|i: int, j: int| 0 <= i < j < v.len() ==> v[i] < v[j],
        forall|i: int, j: int| 0 <= i < j < w.len() ==> w[i] < w[j],
        forall|x: usize| v.contains(x) <==> w.contains(x),
    ensures
        v == w,
    decreases v.len(),
{
    if v.len() == 0 {
        if w.len() > 0 {
            assert(w.contains(w[0]));
        }
        assert(v =~= w);
    } else {
        assert(v.contains(v.last()));
        assert(w.len() > 0);
        assert(w.contains(w.last()));
        let kw = choose|k: int| 0 <= k < w.len() && w[k] == v.last();
        let kv = choose|k: int| 0 <= k < v.len() && v[k] == w.last();
        assert(v.last() <= w.last()) by {
            if kw < w.len() - 1 { assert(w[kw] < w[w.len() - 1]); }
        };
        assert(w.last() <= v.last()) by {
            if kv < v.len() - 1 { assert(v[kv] < v[v.len() - 1]); }
        };
        let vd = v.drop_last();
        let wd = w.drop_last();
        assert forall|x: usize| vd.contains(x) implies wd.contains(x) by {
            let i = choose|i: int| 0 <= i < vd.len() && vd[i] == x;
            assert(v[i] == x && v[i] < v.last());
            assert(v.contains(x));
            let j = choose|j: int| 0 <= j < w.len() && w[j] == x;
            assert(j != w.len() - 1);
            assert(wd[j] == x);
        };
        assert forall|x: usize| wd.contains(x) implies vd.contains(x) by {
            let j = choose|j: int| 0 <= j < wd.len() && wd[j] == x;
            assert(w[j] == x && w[j] < w.last());
            assert(w.contains(x));
            let i = choose|i: int| 0 <= i < v.len() && v[i] == x;
            assert(i != v.len() - 1);
            assert(vd[i] == x);
        };
        lemma_increasing_same_elements(vd, wd);
        assert(v =~= vd.push(v.last()));
        assert(w =~= wd.push(w.last()));
    }
}

/// Law: a plan is unique. Two plans of the same layers over the same slots
/// (such as the one [`ShardingPlanner::plan`] makes and the one
/// [`PipelineExecutor::new`] makes) agree in every slot, every mapped layer
/// and every stage.
pub proof fn lemma_plan_unique(old_slots: Seq<DeviceSlot>, s1: Seq<DeviceSlot>, a1: LayerAssignment,
    s2: Seq<DeviceSlot>, a2: LayerAssignment, sizes: Seq<u64>, n: usize)
    requires
        is_plan(old_slots, s1, a1, sizes, n),
        is_plan(old_slots, s2, a2, sizes, n),
    ensures
        plans_agree(s1, a1, s2, a2),
{
    let budgets = mesh_budgets(old_slots);
    assert forall|s: int| 0 <= s < s1.len() implies s1[s].assigned_layers@ == s2[s].assigned_layers@ by {
        let v = s1[s].assigned_layers@;
        let w = s2[s].assigned_layers@;
        assert(holds_exactly(v, budgets, sizes, n as nat, s));
        assert(holds_exactly(w, budgets, sizes, n as nat, s));
        assert forall|x: usize| v.contains(x) implies w.contains(x) by {
            let i = choose|i: int| 0 <= i < v.len() && v[i] == x;
            assert(x < n && slot_of_layer(budgets, sizes, x as int) == s);
            assert(w.contains(x as int as usize));
        };
        assert forall|x: usize| w.contains(x) implies v.contains(x) by {
            let i = choose|i: int| 0 <= i < w.len() && w[i] == x;
            assert(x < n && slot_of_layer(budgets, sizes, x as int) == s);
            assert(v.contains(x as int as usize));
        };
        lemma_increasing_same_elements(v, w);
    };
    assert forall|s: int| 0 <= s < s1.len() implies (#[trigger] s1[s]).id@ == s2[s].id@ by {
        assert(s1[s].id == old_slots[s].id);
        assert(s2[s].id == old_slots[s].id);
    };
    let p = planned_stages(mesh_ids(old_slots), budgets, sizes, n as nat, old_slots.len());
    assert forall|i: int| 0 <= i < a1.stages@.len() implies {
        &&& (#[trigger] a1.stages@[i]).0@ == a2.stages@[i].0@
        &&& a1.stages@[i].1 == a2.stages@[i].1
    } by {
        assert(a1.stages@[i].0@ == p[i].0);
        assert(a2.stages@[i].0@ == p[i].0);
    };
}

/// Law: the mesh and the map of a plan agree. A layer is held by some slot
/// of the planned mesh exactly when the map assigns it (when there is a
/// slot and the layer is one of the `n` planned), and a slot that holds it
/// carries the id that the map gives it. So the first slot holding a layer
/// ([`DeviceMesh::slot_for_layer`]) has the id that
/// [`LayerAssignment::slot_for`] gives.
pub proof fn lemma_plan_slot_agrees(old_slots: Seq<DeviceSlot>, new_slots: Seq<DeviceSlot>, a: LayerAssignment,
    sizes: Seq<u64>, n: usize, l: usize)
    requires
        is_plan(old_slots, new_slots, a, sizes, n),
    ensures
        a.map@.contains_key(l) <==> (old_slots.len() > 0 && l < n),
        (exists|s: int| 0 <= s < new_slots.len() && (#[trigger] new_slots[s]).assigned_layers@.contains(l))
            <==> a.map@.contains_key(l),
        forall|s: int| 0 <= s < new_slots.len() && (#[trigger] new_slots[s]).assigned_layers@.contains(l)
            ==> new_slots[s].id@ == a.map@[l]@,
{
    let budgets = mesh_budgets(old_slots);
    if old_slots.len() > 0 {
        assert(a.map@.dom() == Set::new(|x: usize| x < n));
        if l < n {
            assert(a.map@.dom().contains(l));
            lemma_greedy_state_bounds(budgets, sizes, (l + 1) as nat);
            let s = slot_of_layer(budgets, sizes, l as int);
            assert(holds_exactly(new_slots[s].assigned_layers@, budgets, sizes, n as nat, s));
            assert(new_slots[s].assigned_layers@.contains(l as int as usize));
        } else {
            assert(!a.map@.dom().contains(l));
        }
    } else {
        assert(!a.map@.dom().contains(l));
    }
    assert forall|s: int| 0 <= s < new_slots.len() && (#[trigger] new_slots[s]).assigned_layers@.contains(l)
        implies new_slots[s].id@ == a.map@[l]@ && l < n && old_slots.len() > 0 by {
        let v = new_slots[s].assigned_layers@;
        assert(holds_exactly(v, budgets, sizes, n as nat, s));
        let i = choose|i: int| 0 <= i < v.len() && v[i] == l;
        assert(l < n && slot_of_layer(budgets, sizes, l as int) == s);
        assert(new_slots[s].id == old_slots[s].id);
    };
}

/// Stages of a plan that are in order do not overlap: an earlier stage ends
/// where a later one may start, or before.
proof fn lemma_stages_ordered(p: Seq<(Seq<char>, int, int)>, i: int, j: int)
    requires
        forall|k: int| 0 <= k < p.len() ==> (#[trigger] p[k]).1 < p[k].2,
        forall|k: int| 0 <= k < p.len() - 1 ==> (#[trigger] p[k]).2 == p[k + 1].1,
        0 <= i < j < p.len(),
    ensures
        p[i].2 <= p[j].1,
    decreases j - i,
{
    if j > i + 1 {
        lemma_stages_ordered(p, i, j - 1);
        assert(p[j - 1].2 == p[j].1);
    } else {
        assert(p[i].2 == p[i + 1].1);
    }
}

/// Law: over a plan of `n > 0` layers on a mesh with slots, every planned
/// layer lies in exactly one stage, and that stage's slot id is the one the
/// map gives the layer; no other layer is mapped.
pub proof fn lemma_plan_stage_of_layer(old_slots: Seq<DeviceSlot>, new_slots: Seq<DeviceSlot>, a: LayerAssignment,
    sizes: Seq<u64>, n: usize, l: usize)
    requires
        is_plan(old_slots, new_slots, a, sizes, n),
        old_slots.len() > 0,
        n > 0,
    ensures
        a.map@.contains_key(l) <==> l < n,
        l < n ==> exists|i: int| 0 <= i < a.stages@.len()
            && (#[trigger] a.stages@[i]).1.start <= l < a.stages@[i].1.end
            && a.stages@[i].0@ == a.map@[l]@,
        forall|i: int, j: int| 0 <= i < a.stages@.len() && 0 <= j < a.stages@.len()
            && (#[trigger] a.stages@[i]).1.start <= l < a.stages@[i].1.end
            && (#[trigger] a.stages@[j]).1.start <= l < a.stages@[j].1.end ==> i == j,
{
    let budgets = mesh_budgets(old_slots);
    let ids = mesh_ids(old_slots);
    let p = planned_stages(ids, budgets, sizes, n as nat, old_slots.len());
    lemma_plan_slot_agrees(old_slots, new_slots, a, sizes, n, l);
    lemma_plan_stages_partition(ids, budgets, sizes, n as nat);
    if l < n {
        let i = choose|i: int| 0 <= i < p.len() && (#[trigger] p[i]).1 <= l < p[i].2
            && p[i].0 == ids[#[trigger] slot_of_layer(budgets, sizes, l as int)];
        lemma_greedy_state_bounds(budgets, sizes, (l + 1) as nat);
        assert(a.stages@[i].0@ == p[i].0);
        assert(a.map@[l]@ == old_slots[slot_of_layer(budgets, sizes, l as int)].id@);
        assert(a.stages@[i].1.start <= l < a.stages@[i].1.end);
    }
    assert forall|i: int, j: int| 0 <= i < a.stages@.len() && 0 <= j < a.stages@.len()
        && (#[trigger] a.stages@[i]).1.start <= l < a.stages@[i].1.end
        && (#[trigger] a.stages@[j]).1.start <= l < a.stages@[j].1.end implies i == j by {
        if i < j {
            lemma_stages_ordered(p, i, j);
        } else if j < i {
            lemma_stages_ordered(p, j, i);
        }
    };
}

/// Law: planning from a manifest is planning with the manifest's layer
/// sizes. A plan made from the manifest's layer table (as
/// [`ShardingPlanner::plan_from_manifest`] makes it) agrees with a plan made
/// from the sizes that [`ModelManifest::layer_sizes`] lists.
pub proof fn lemma_manifest_plan(manifest: ModelManifest, old_slots: Seq<DeviceSlot>, s1: Seq<DeviceSlot>,
    a1: LayerAssignment, sizes: Seq<u64>, s2: Seq<DeviceSlot>, a2: LayerAssignment, n: usize)
    requires
        exists|t: Seq<(usize, u64)>| #[trigger] is_layer_table(manifest_pairs(manifest.layers@), t)
            && is_plan(old_slots, s1, a1, t.map_values(|e: (usize, u64)| e.1), n),
        exists|t: Seq<(usize, u64)>| is_layer_table(manifest_pairs(manifest.layers@), t)
            && sizes == t.map_values(|e: (usize, u64)| e.1),
        is_plan(old_slots, s2, a2, sizes, n),
    ensures
        plans_agree(s1, a1, s2, a2),
{
    let pairs = manifest_pairs(manifest.layers@);
    let t1 = choose|t: Seq<(usize, u64)>| #[trigger] is_layer_table(pairs, t)
        && is_plan(old_slots, s1, a1, t.map_values(|e: (usize, u64)| e.1), n);
    let t2 = choose|t: Seq<(usize, u64)>| is_layer_table(pairs, t) && sizes == t.map_values(|e: (usize, u64)| e.1);
    crate::inference::manifest::lemma_layer_table_unique(pairs, t1, t2);
    lemma_plan_unique(old_slots, s1, a1, s2, a2, sizes, n);
}

/// Plans which layers go to which device slot.
///
/// Strategy: greedy fill. Layers are assigned in order (0, 1, 2, …) to the
/// current slot until its DRAM budget would be exceeded, then the following
/// layers overflow to the next slot; the last slot takes whatever remains.
pub struct ShardingPlanner;

/// Sums of prefixes never exceed the whole sum.
proof fn lemma_seq_sum_prefix(s: Seq<u64>, i: int)
    requires
        0 <= i <= s.len(),
    ensures
        seq_sum(s.take(i)) <= seq_sum(s),
        seq_sum(s.take(i)) >= 0,
    decreases s.len(),
{
    if s.len() > 0 {
        if i == s.len() {
            assert(s.take(i) =~= s);
            lemma_seq_sum_nonneg(s.drop_last());
        } else {
            assert(s.take(i) =~= s.drop_last().take(i));
            lemma_seq_sum_prefix(s.drop_last(), i);
        }
    } else {
        assert(s.take(i) =~= s);
    }
}

proof fn lemma_seq_sum_nonneg(s: Seq<u64>)
    ensures
        seq_sum(s) >= 0,
    decreases s.len(),
{
    if s.len() > 0 {
        lemma_seq_sum_nonneg(s.drop_last());
    }
}

/// `layers_before_slot` is at most the number of layers and grows with the slot.
proof fn lemma_before_slot_bounds(budgets: Seq<u64>, sizes: Seq<u64>, n: nat, s1: int, s2: int)
    requires
        s1 <= s2,
    ensures
        layers_before_slot(budgets, sizes, n, s1) <= layers_before_slot(budgets, sizes, n, s2),
        layers_before_slot(budgets, sizes, n, s2) <= n,
    decreases n,
{
    if n > 0 {
        lemma_before_slot_bounds(budgets, sizes, (n - 1) as nat, s1, s2);
    }
}

/// With no layers no slot receives any, so there are no stages.
proof fn lemma_no_layers_no_stages(ids: Seq<Seq<char>>, budgets: Seq<u64>, sizes: Seq<u64>, k: nat)
    ensures
        planned_stages(ids, budgets, sizes, 0, k) == Seq::<(Seq<char>, int, int)>::empty(),
    decreases k,
{
    if k > 0 {
        lemma_no_layers_no_stages(ids, budgets, sizes, (k - 1) as nat);
    }
}

/// With a single slot every layer is before slot 1.
proof fn lemma_single_slot_counts(budgets: Seq<u64>, sizes: Seq<u64>, n: nat)
    requires
        budgets.len() == 1,
    ensures
        layers_before_slot(budgets, sizes, n, 1) == n,
        layers_before_slot(budgets, sizes, n, 0) == 0,
    decreases n,
{
    if n > 0 {
        lemma_single_slot_counts(budgets, sizes, (n - 1) as nat);
        lemma_single_slot(budgets, sizes, n);
    }
}

/// Each layer keeps the slot of the previous one or moves to the next slot.
proof fn lemma_slot_monotone(budgets: Seq<u64>, sizes: Seq<u64>, l1: int, l2: int)
    requires
        0 <= l1 <= l2,
    ensures
        slot_of_layer(budgets, sizes, l1) <= slot_of_layer(budgets, sizes, l2),
    decreases l2 - l1,
{
    if l1 < l2 {
        lemma_slot_monotone(budgets, sizes, l1, l2 - 1);
    }
}

/// A layer lands before slot `s` exactly when its index is below
/// `layers_before_slot(.., n, s)`: the layers of each slot are consecutive.
proof fn lemma_before_slot_exact(budgets: Seq<u64>, sizes: Seq<u64>, n: nat, s: int)
    ensures
        forall|l: int| 0 <= l < layers_before_slot(budgets, sizes, n, s)
            <==> (0 <= l < n && #[trigger] slot_of_layer(budgets, sizes, l) < s),
    decreases n,
{
    if n > 0 {
        let m = (n - 1) as nat;
        lemma_before_slot_exact(budgets, sizes, m, s);
        lemma_before_slot_bounds(budgets, sizes, m, s, s);
        if slot_of_layer(budgets, sizes, m as int) < s {
            let b = layers_before_slot(budgets, sizes, m, s);
            if b < m {
                lemma_slot_monotone(budgets, sizes, b as int, m as int);
                assert(slot_of_layer(budgets, sizes, b as int) < s);
            }
            assert forall|l: int| 0 <= l < n implies #[trigger] slot_of_layer(budgets, sizes, l) < s by {
                lemma_slot_monotone(budgets, sizes, l, m as int);
            };
        }
    }
}

/// The shape of the stage list over the first `k` slots: stages are
/// non-empty, consecutive, start at 0 and end where the layers of slot `k`
/// would begin; every layer before that lies in the stage of its own slot.
proof fn lemma_stages_shape(ids: Seq<Seq<char>>, budgets: Seq<u64>, sizes: Seq<u64>, n: nat, k: nat)
    ensures
        ({
            let p = planned_stages(ids, budgets, sizes, n, k);
            &&& p.len() == 0 ==> layers_before_slot(budgets, sizes, n, k as int) == 0
            &&& p.len() > 0 ==> p[0].1 == 0 && p.last().2 == layers_before_slot(budgets, sizes, n, k as int)
            &&& forall|i: int| 0 <= i < p.len() ==> (#[trigger] p[i]).1 < p[i].2
            &&& forall|i: int| 0 <= i < p.len() - 1 ==> (#[trigger] p[i]).2 == p[i + 1].1
            &&& forall|l: int| 0 <= l < layers_before_slot(budgets, sizes, n, k as int) ==> exists|i: int|
                0 <= i < p.len() && (#[trigger] p[i]).1 <= l < p[i].2 && p[i].0 == ids[#[trigger] slot_of_layer(budgets, sizes, l)]
        }),
    decreases k,
{
    if k == 0 {
        lemma_before_slot_zero(budgets, sizes, n);
    } else {
        let j = (k - 1) as nat;
        lemma_stages_shape(ids, budgets, sizes, n, j);
        lemma_before_slot_bounds(budgets, sizes, n, j as int, k as int);
        lemma_before_slot_exact(budgets, sizes, n, j as int);
        lemma_before_slot_exact(budgets, sizes, n, k as int);
        let prev = planned_stages(ids, budgets, sizes, n, j);
        let p = planned_stages(ids, budgets, sizes, n, k);
        let lo = layers_before_slot(budgets, sizes, n, j as int);
        let hi = layers_before_slot(budgets, sizes, n, k as int);
        if layers_in_slot(budgets, sizes, n, j as int) > 0 {
            assert(p == prev.push((ids[j as int], lo as int, hi as int)));
            assert forall|i: int| 0 <= i < prev.len() implies #[trigger] p[i] == prev[i] by {};
            if prev.len() > 0 {
                assert(p[0] == prev[0]);
                assert(prev[prev.len() - 1].2 == lo);
            }
            assert forall|i: int| 0 <= i < p.len() - 1 implies (#[trigger] p[i]).2 == p[i + 1].1 by {
                if i < prev.len() - 1 {
                    assert(p[i + 1] == prev[i + 1]);
                }
            };
            assert forall|l: int| 0 <= l < hi implies exists|i: int|
                0 <= i < p.len() && (#[trigger] p[i]).1 <= l < p[i].2 && p[i].0 == ids[#[trigger] slot_of_layer(budgets, sizes, l)] by {
                if l < lo {
                    let i = choose|i: int| 0 <= i < prev.len() && (#[trigger] prev[i]).1 <= l < prev[i].2
                        && prev[i].0 == ids[slot_of_layer(budgets, sizes, l)];
                    assert(p[i] == prev[i]);
                } else {
                    assert(slot_of_layer(budgets, sizes, l) < k);
                    assert(!(slot_of_layer(budgets, sizes, l) < j));
                    assert(p[prev.len() as int].1 <= l < p[prev.len() as int].2);
                }
            };
        } else {
            assert(p == prev);
            assert(hi == lo);
        }
    }
}

proof fn lemma_greedy_nonneg(budgets: Seq<u64>, sizes: Seq<u64>, n: nat)
    ensures
        greedy_state(budgets, sizes, n).0 >= 0,
    decreases n,
{
    if n > 0 {
        lemma_greedy_nonneg(budgets, sizes, (n - 1) as nat);
    }
}

/// Law: a plan cuts the layers `0..n` into consecutive non-empty stages, in
/// slot order, that start at layer 0 and end at layer `n`; each layer lies in
/// the stage of the slot that the fill gave it.
pub proof fn lemma_plan_stages_partition(ids: Seq<Seq<char>>, budgets: Seq<u64>, sizes: Seq<u64>, n: nat)
    requires
        budgets.len() >= 1,
        ids.len() == budgets.len(),
        n > 0,
    ensures
        ({
            let p = planned_stages(ids, budgets, sizes, n, budgets.len());
            &&& p.len() > 0
            &&& p[0].1 == 0
            &&& p.last().2 == n
            &&& forall|i: int| 0 <= i < p.len() ==> (#[trigger] p[i]).1 < p[i].2
            &&& forall|i: int| 0 <= i < p.len() - 1 ==> (#[trigger] p[i]).2 == p[i + 1].1
            &&& forall|l: int| 0 <= l < n ==> exists|i: int|
                0 <= i < p.len() && (#[trigger] p[i]).1 <= l < p[i].2 && p[i].0 == ids[#[trigger] slot_of_layer(budgets, sizes, l)]
        }),
{
    lemma_stages_shape(ids, budgets, sizes, n, budgets.len());
    lemma_before_slot_end(budgets, sizes, n);
}

/// Law: a slot that is not the last never holds more bytes than its budget,
/// except for the single layer that opened it; and the fill moves on to the
/// next slot only when the next layer would not fit in the current one.
pub proof fn lemma_plan_respects_budgets(budgets: Seq<u64>, sizes: Seq<u64>, l: nat)
    requires
        budgets.len() >= 1,
    ensures
        ({
            let before = greedy_state(budgets, sizes, l);
            let after = greedy_state(budgets, sizes, l + 1);
            &&& after.0 + 1 < budgets.len() ==> after.1 <= budgets[after.0] as int || after.1 == layer_bytes(sizes, l as int)
            &&& after.0 != before.0 ==> after.0 == before.0 + 1 && before.1 + layer_bytes(sizes, l as int) > budgets[before.0] as int
        }),
    decreases l,
{
    if l > 0 {
        lemma_plan_respects_budgets(budgets, sizes, (l - 1) as nat);
    }
}

impl ShardingPlanner {
    /// Assigns `num_layers` layers across the slots of `mesh` by the greedy
    /// fill, replacing any previous assignment.
    ///
    /// `layer_sizes_bytes` lists per-layer sizes; a layer beyond the list is
    /// assumed to have the mean listed size (500 MiB when none is listed).
    pub fn plan(mesh: &mut DeviceMesh, num_layers: usize, layer_sizes_bytes: &[u64]) -> (a: LayerAssignment)
        requires
            plan_fits(mesh_budgets(old(mesh).slots@), layer_sizes_bytes@, num_layers as nat),
        ensures
            is_plan(old(mesh).slots@, final(mesh).slots@, a, layer_sizes_bytes@, num_layers),
    {
        let ghost old_slots = mesh.slots@;
        let ghost budgets = mesh_budgets(mesh.slots@);
        let ghost ids = mesh_ids(mesh.slots@);
        let ghost sizes = layer_sizes_bytes@;
        let ghost n = num_layers as nat;
        let n_slots = mesh.slots.len();

        // Clear any previous assignment
        let mut i: usize = 0;
        while i < n_slots
            invariant
                mesh.slots@.len() == n_slots,
                n_slots == old_slots.len(),
                i <= n_slots,
                forall|s: int| 0 <= s < n_slots ==> {
                    &&& (#[trigger] mesh.slots@[s]).id == old_slots[s].id
                    &&& mesh.slots@[s].kind == old_slots[s].kind
                    &&& mesh.slots@[s].dram_budget_bytes == old_slots[s].dram_budget_bytes
                },
                forall|s: int| 0 <= s < i ==> (#[trigger] mesh.slots@[s]).assigned_layers@.len() == 0,
            decreases n_slots - i,
        {
            mesh.slots[i].assigned_layers.clear();
            i = i + 1;
        }
        assert(mesh_budgets(mesh.slots@) =~= budgets);
        assert(mesh_ids(mesh.slots@) =~= ids);

        if n_slots == 0 || num_layers == 0 {
            proof {
                lemma_no_layers_no_stages(ids, budgets, sizes, n_slots as nat);
                if num_layers == 0 {
                    assert(Set::new(|l: usize| l < num_layers) =~= Set::<usize>::empty());
                }
            }
            return LayerAssignment { map: HashMap::new(), stages: Vec::new() };
        }

        // If only one slot, trivially assign everything to it
        if n_slots == 1 {
            let mut layers: Vec<usize> = Vec::new();
            let mut map: HashMap<usize, String> = HashMap::new();
            let mut l: usize = 0;
            while l < num_layers
                invariant
                    n_slots == 1,
                    mesh.slots@.len() == 1,
                    l <= num_layers,
                    layers@.len() == l,
                    forall|j: int| 0 <= j < l ==> layers@[j] == j,
                    map@.dom() == Set::new(|x: usize| x < l),
                    forall|x: usize| x < l ==> (#[trigger] map@[x]) == mesh.slots@[0].id,
                decreases num_layers - l,
            {
                layers.push(l);
                map.insert(l, mesh.slots[0].id.clone());
                l = l + 1;
                assert(map@.dom() =~= Set::new(|x: usize| x < l));
            }
            mesh.slots[0].assigned_layers = layers;
            let mut stages: Vec<(String, Range<usize>)> = Vec::new();
            stages.push((mesh.slots[0].id.clone(), 0..num_layers));
            proof {
                assert forall|x: int| 0 <= x < n implies slot_of_layer(budgets, sizes, x) == 0 by {
                    lemma_single_slot(budgets, sizes, (x + 1) as nat);
                };
                lemma_single_slot_counts(budgets, sizes, n);
                assert(holds_exactly(mesh.slots@[0].assigned_layers@, budgets, sizes, n, 0)) by {
                    assert forall|x: int| 0 <= x < n && slot_of_layer(budgets, sizes, x) == 0 implies
                        mesh.slots@[0].assigned_layers@.contains(x as usize) by {
                        assert(mesh.slots@[0].assigned_layers@[x] == x as usize);
                    };
                };
                assert(planned_stages(ids, budgets, sizes, n, 0) =~= Seq::<(Seq<char>, int, int)>::empty());
                assert(planned_stages(ids, budgets, sizes, n, 1) =~= seq![(ids[0], 0int, n as int)]);
            }
            return LayerAssignment { map, stages };
        }

        // Greedy fill: walk layers in order, fill the current slot until its budget is exhausted
        let len = layer_sizes_bytes.len();
        let mut total: u64 = 0;
        let mut k: usize = 0;
        while k < len
            invariant
                len == sizes.len(),
                k <= len,
                total == seq_sum(sizes.take(k as int)),
                seq_sum(sizes) <= u64::MAX,
                layer_sizes_bytes@ == sizes,
            decreases len - k,
        {
            proof {
                assert(sizes.take(k + 1).drop_last() =~= sizes.take(k as int));
                lemma_seq_sum_prefix(sizes, k + 1);
            }
            total = total + layer_sizes_bytes[k];
            k = k + 1;
        }
        assert(sizes.take(len as int) =~= sizes);
        let avg_size: u64 = if len == 0 { 524288000 } else { total / (len as u64) };

        let mut slot_idx: usize = 0;
        let mut slot_used: u64 = 0;
        let mut map: HashMap<usize, String> = HashMap::new();
        let mut counts: Vec<usize> = Vec::new();
        let mut c: usize = 0;
        while c < n_slots
            invariant
                c <= n_slots,
                counts@.len() == c,
                forall|s: int| 0 <= s < c ==> counts@[s] == 0,
            decreases n_slots - c,
        {
            counts.push(0);
            c = c + 1;
        }
        proof {
            assert(Set::new(|x: usize| x < 0usize) =~= Set::<usize>::empty());
        }

        let mut layer_idx: usize = 0;
        while layer_idx < num_layers
            invariant
                n_slots >= 2,
                n_slots == old_slots.len(),
                mesh.slots@.len() == n_slots,
                budgets == mesh_budgets(old_slots),
                sizes == layer_sizes_bytes@,
                n == num_layers,
                plan_fits(budgets, sizes, n),
                len == sizes.len(),
                avg_size == avg_layer_bytes(sizes),
                layer_idx <= num_layers,
                slot_idx == greedy_state(budgets, sizes, layer_idx as nat).0,
                slot_used == greedy_state(budgets, sizes, layer_idx as nat).1,
                slot_idx < n_slots,
                counts@.len() == n_slots,
                forall|s: int| 0 <= s < n_slots ==> #[trigger] counts@[s] == layers_in_slot(budgets, sizes, layer_idx as nat, s),
                forall|s: int| 0 <= s < n_slots ==> {
                    &&& (#[trigger] mesh.slots@[s]).id == old_slots[s].id
                    &&& mesh.slots@[s].kind == old_slots[s].kind
                    &&& mesh.slots@[s].dram_budget_bytes == old_slots[s].dram_budget_bytes
                    &&& holds_exactly(mesh.slots@[s].assigned_layers@, budgets, sizes, layer_idx as nat, s)
                },
                map@.dom() == Set::new(|x: usize| x < layer_idx),
                forall|x: usize| x < layer_idx ==> (#[trigger] map@[x]) == old_slots[slot_of_layer(budgets, sizes, x as int)].id,
            decreases num_layers - layer_idx,
        {
            let size: u64 = if layer_idx < len { layer_sizes_bytes[layer_idx] } else { avg_size };
            proof {
                assert(greedy_state(budgets, sizes, layer_idx as nat).1 + layer_bytes(sizes, layer_idx as int) <= u64::MAX);
                lemma_greedy_state_bounds(budgets, sizes, (layer_idx + 1) as nat);
            }
            let ghost prev_slots = mesh.slots@;
            if slot_idx + 1 < n_slots && slot_used + size > mesh.slots[slot_idx].dram_budget_bytes {
                slot_idx = slot_idx + 1;
                slot_used = 0;
            }
            assert(slot_idx == slot_of_layer(budgets, sizes, layer_idx as int));
            mesh.slots[slot_idx].assigned_layers.push(layer_idx);
            map.insert(layer_idx, mesh.slots[slot_idx].id.clone());
            slot_used = slot_used + size;
            proof {
                lemma_before_slot_bounds(budgets, sizes, (layer_idx + 1) as nat, slot_idx as int, slot_idx + 1);
                lemma_before_slot_bounds(budgets, sizes, layer_idx as nat, slot_idx as int, slot_idx + 1);
            }
            counts.set(slot_idx, counts[slot_idx] + 1);
            proof {
                let li = (layer_idx + 1) as nat;
                assert forall|s: int| 0 <= s < n_slots implies #[trigger] counts@[s] == layers_in_slot(budgets, sizes, li, s) by {
                    assert(layers_before_slot(budgets, sizes, li, s) == layers_before_slot(budgets, sizes, layer_idx as nat, s)
                        + if slot_of_layer(budgets, sizes, layer_idx as int) < s { 1nat } else { 0nat });
                    assert(layers_before_slot(budgets, sizes, li, s + 1) == layers_before_slot(budgets, sizes, layer_idx as nat, s + 1)
                        + if slot_of_layer(budgets, sizes, layer_idx as int) < s + 1 { 1nat } else { 0nat });
                };
                assert forall|s: int| 0 <= s < n_slots implies holds_exactly(#[trigger] mesh.slots@[s].assigned_layers@, budgets, sizes, li, s) by {
                    let v = mesh.slots@[s].assigned_layers@;
                    let pv = prev_slots[s].assigned_layers@;
                    if s == slot_idx {
                        assert(v == pv.push(layer_idx));
                        assert forall|l: int| 0 <= l < li && slot_of_layer(budgets, sizes, l) == s implies v.contains(l as usize) by {
                            if l < layer_idx {
                                assert(pv.contains(l as usize));
                                let j = choose|j: int| 0 <= j < pv.len() && pv[j] == l as usize;
                                assert(v[j] == l as usize);
                            } else {
                                assert(v[pv.len() as int] == l as usize);
                            }
                        };
                    } else {
                        assert(v == pv);
                    }
                };
                assert(map@.dom() =~= Set::new(|x: usize| x < layer_idx + 1));
            }
            layer_idx = layer_idx + 1;
        }

        // Build the ordered stage list (contiguous ranges for the executor)
        let mut stages: Vec<(String, Range<usize>)> = Vec::new();
        let mut cursor: usize = 0;
        let mut si: usize = 0;
        proof {
            lemma_before_slot_zero(budgets, sizes, n);
        }
        while si < n_slots
            invariant
                n_slots == old_slots.len(),
                n_slots >= 1,
                mesh.slots@.len() == n_slots,
                budgets == mesh_budgets(old_slots),
                ids == mesh_ids(old_slots),
                n == num_layers,
                si <= n_slots,
                counts@.len() == n_slots,
                forall|s: int| 0 <= s < n_slots ==> #[trigger] counts@[s] == layers_in_slot(budgets, sizes, n, s),
                forall|s: int| 0 <= s < n_slots ==> (#[trigger] mesh.slots@[s]).id == old_slots[s].id,
                cursor == layers_before_slot(budgets, sizes, n, si as int),
                stages_match(stages@, planned_stages(ids, budgets, sizes, n, si as nat)),
            decreases n_slots - si,
        {
            let count = counts[si];
            proof {
                lemma_before_slot_bounds(budgets, sizes, n, si as int, si + 1);
            }
            if count > 0 {
                stages.push((mesh.slots[si].id.clone(), cursor..cursor + count));
                cursor = cursor + count;
            }
            proof {
                assert(ids[si as int] == old_slots[si as int].id@);
            }
            si = si + 1;
        }
        LayerAssignment { map, stages }
    }

    /// Plans with the per-layer sizes that `manifest` lists: each layer index
    /// named by a `model.layers.<i>...` entry, in layer order, with the bytes
    /// of its first entry.
    pub fn plan_from_manifest(mesh: &mut DeviceMesh, num_layers: usize, manifest: &ModelManifest) -> (a: LayerAssignment)
        requires
            forall|t: Seq<(usize, u64)>| #[trigger] is_layer_table(manifest_pairs(manifest.layers@), t)
                ==> plan_fits(mesh_budgets(old(mesh).slots@), t.map_values(|e: (usize, u64)| e.1), num_layers as nat),
        ensures
            exists|t: Seq<(usize, u64)>| #[trigger] is_layer_table(manifest_pairs(manifest.layers@), t)
                && is_plan(old(mesh).slots@, final(mesh).slots@, a, t.map_values(|e: (usize, u64)| e.1), num_layers),
    {
        let layer_sizes = manifest.layer_sizes();
        Self::plan(mesh, num_layers, layer_sizes.as_slice())
    }

    /// Whether [`ShardingPlanner::plan`] can place `num_layers` layers on
    /// `mesh` within `u64` arithmetic: the planner's precondition, tested.
    pub fn fits(mesh: &DeviceMesh, num_layers: usize, layer_sizes_bytes: &[u64]) -> (b: bool)
        ensures
            b == plan_fits(mesh_budgets(mesh.slots@), layer_sizes_bytes@, num_layers as nat),
    {
        let ghost budgets = mesh_budgets(mesh.slots@);
        let ghost sizes = layer_sizes_bytes@;
        let ghost n = num_layers as nat;
        let n_slots = mesh.slots.len();
        if n_slots < 2 || num_layers == 0 {
            return true;
        }
        let len = layer_sizes_bytes.len();
        let mut total: u64 = 0;
        let mut k: usize = 0;
        while k < len
            invariant
                len == sizes.len(),
                k <= len,
                total == seq_sum(sizes.take(k as int)),
                layer_sizes_bytes@ == sizes,
                budgets == mesh_budgets(mesh.slots@),
                n_slots == mesh.slots@.len(),
                n_slots >= 2,
                n == num_layers,
                num_layers > 0,
            decreases len - k,
        {
            proof {
                assert(sizes.take(k + 1).drop_last() =~= sizes.take(k as int));
            }
            match total.checked_add(layer_sizes_bytes[k]) {
                Some(t) => { total = t; },
                None => {
                    proof {
                        lemma_seq_sum_prefix(sizes, k + 1);
                        assert(sizes.take(k + 1).last() == sizes[k as int]);
                        assert(seq_sum(sizes.take(k + 1)) == total + sizes[k as int]);
                        assert(budgets.len() == n_slots);
                    }
                    return false;
                },
            }
            k = k + 1;
        }
        assert(sizes.take(len as int) =~= sizes);
        let avg_size: u64 = if len == 0 { 524288000 } else { total / (len as u64) };
        proof {
            if len > 0 {
                assert(total / (len as u64) <= total) by (nonlinear_arith)
                    requires len > 0;
            }
        }
        let mut slot_idx: usize = 0;
        let mut slot_used: u64 = 0;
        let mut l: usize = 0;
        while l < num_layers
            invariant
                n_slots >= 2,
                n_slots == mesh.slots@.len(),
                budgets == mesh_budgets(mesh.slots@),
                sizes == layer_sizes_bytes@,
                n == num_layers,
                len == sizes.len(),
                seq_sum(sizes) <= u64::MAX,
                avg_size == avg_layer_bytes(sizes),
                l <= num_layers,
                slot_idx == greedy_state(budgets, sizes, l as nat).0,
                slot_used == greedy_state(budgets, sizes, l as nat).1,
                slot_idx < n_slots,
                forall|j: nat| j < l ==> #[trigger] greedy_state(budgets, sizes, j).1 + layer_bytes(sizes, j as int) <= u64::MAX,
            decreases num_layers - l,
        {
            let size: u64 = if l < len { layer_sizes_bytes[l] } else { avg_size };
            assert(size == layer_bytes(sizes, l as int));
            match slot_used.checked_add(size) {
                Some(next) => {
                    proof {
                        lemma_greedy_state_bounds(budgets, sizes, (l + 1) as nat);
                        assert(budgets[slot_idx as int] == mesh.slots@[slot_idx as int].dram_budget_bytes);
                    }
                    if slot_idx + 1 < n_slots && next > mesh.slots[slot_idx].dram_budget_bytes {
                        slot_idx = slot_idx + 1;
                        slot_used = size;
                    } else {
                        slot_used = next;
                    }
                },
                None => {
                    assert(!plan_fits(budgets, sizes, n)) by {
                        assert(greedy_state(budgets, sizes, l as nat).1 + layer_bytes(sizes, l as int) > u64::MAX);
                    };
                    return false;
                },
            }
            l = l + 1;
        }
        true
    }
}

// ─────────────────────────────────────────────────────────────────────────
// Pipeline Executor
// ─────────────────────────────────────────────────────────────────────────

/// Drives a decode step across a multi-stage [`DeviceMesh`]: each stage runs
/// its contiguous layer range on the activation and hands the result on to
/// the next stage.
pub struct PipelineExecutor {
    pub mesh: DeviceMesh,
    pub assignment: LayerAssignment,
}

/// The log line part of one stage: `<slot>: layers <start>..<end>`.
pub open spec fn stage_part(st: (String, Range<usize>)) -> Seq<char> {
    st.0@ + ": layers "@ + decimal(st.1.start as nat) + ".."@ + decimal(st.1.end as nat)
}

/// The parts of the first `k` stages joined by ` | `.
pub open spec fn joined_parts(stages: Seq<(String, Range<usize>)>, k: nat) -> Seq<char>
    decreases k,
{
    if k == 0 {
        Seq::empty()
    } else if k == 1 {
        stage_part(stages[0])
    } else {
        joined_parts(stages, (k - 1) as nat) + " | "@ + stage_part(stages[k - 1])
    }
}

/// The activations that a run of the stages goes through: `acts[0]` is the
/// input and stage `i` turned `acts[i]` into `acts[i + 1]`.
pub open spec fn stage_run<A, F: Fn(A, &Range<usize>, &str) -> Result<A, String>>(
    f: F,
    stages: Seq<(String, Range<usize>)>,
    acts: Seq<A>,
) -> bool {
    &&& acts.len() >= 1
    &&& acts.len() <= stages.len() + 1
    &&& forall|i: int| 0 <= i < acts.len() - 1 ==> stage_step(f, stages[i], #[trigger] acts[i], Ok::<A, String>(acts[i + 1]))
}

/// Applying `f` to activation `a` for stage `st` may give `res`.
pub open spec fn stage_step<A, F: Fn(A, &Range<usize>, &str) -> Result<A, String>>(
    f: F,
    st: (String, Range<usize>),
    a: A,
    res: Result<A, String>,
) -> bool {
    exists|id: &str| id@ == st.0@ && call_ensures(f, (a, &st.1, id), res)
}

impl PipelineExecutor {
    /// Plans `num_layers` layers of the given sizes over `mesh`.
    pub fn new(mesh: DeviceMesh, num_layers: usize, layer_sizes: &[u64]) -> (e: Self)
        requires
            plan_fits(mesh_budgets(mesh.slots@), layer_sizes@, num_layers as nat),
        ensures
            is_plan(mesh.slots@, e.mesh.slots@, e.assignment, layer_sizes@, num_layers),
    {
        let mut mesh = mesh;
        let assignment = ShardingPlanner::plan(&mut mesh, num_layers, layer_sizes);
        PipelineExecutor { mesh, assignment }
    }

    /// A summary of the pipeline for logging:
    /// `Pipeline[<slot>: layers <a>..<b> | ...]`.
    pub fn describe(&self) -> (s: String)
        ensures
            s@ == "Pipeline["@ + joined_parts(self.assignment.stages@, self.assignment.stages@.len()) + "]"@,
    {
        let stages = &self.assignment.stages;
        let mut body = String::new();
        let mut i: usize = 0;
        while i < stages.len()
            invariant
                i <= stages@.len(),
                body@ == joined_parts(stages@, i as nat),
            decreases stages@.len() - i,
        {
            if i > 0 {
                body.append(" | ");
            }
            body.append(stages[i].0.as_str());
            body.append(": layers ");
            push_decimal(&mut body, stages[i].1.start as u64);
            body.append("..");
            push_decimal(&mut body, stages[i].1.end as u64);
            proof {
                if i == 0 {
                    assert(body@ =~= stage_part(stages@[0]));
                } else {
                    assert(body@ =~= joined_parts(stages@, i as nat) + " | "@ + stage_part(stages@[i as int]));
                }
            }
            i = i + 1;
        }
        let mut s = to_string("Pipeline[");
        s.append(body.as_str());
        s.append("]");
        s
    }

    /// Runs one decode step: the activation goes through the stages in order,
    /// each applying `run_layer_range` to its layer range and slot id; the
    /// first error stops the run and is returned.
    pub fn execute_step<A, F: Fn(A, &Range<usize>, &str) -> Result<A, String>>(
        &self,
        initial_activation: A,
        run_layer_range: F,
    ) -> (r: Result<A, String>)
        requires
            forall|a: A, rg: &Range<usize>, id: &str| #[trigger] call_requires(run_layer_range, (a, rg, id)),
        ensures
            match r {
                Ok(out) => exists|acts: Seq<A>|
                    stage_run(run_layer_range, self.assignment.stages@, acts)
                    && acts.len() == self.assignment.stages@.len() + 1
                    && acts[0] == initial_activation
                    && out == acts.last(),
                Err(e) => exists|acts: Seq<A>|
                    stage_run(run_layer_range, self.assignment.stages@, acts)
                    && acts.len() <= self.assignment.stages@.len()
                    && acts[0] == initial_activation
                    && stage_step(run_layer_range, self.assignment.stages@[acts.len() - 1], acts.last(), Err::<A, String>(e)),
            },
    {
        let stages = &self.assignment.stages;
        let mut activation = initial_activation;
        let ghost mut acts: Seq<A> = seq![activation];
        let mut i: usize = 0;
        while i < stages.len()
            invariant
                stages@ == self.assignment.stages@,
                i <= stages@.len(),
                forall|a: A, rg: &Range<usize>, id: &str| #[trigger] call_requires(run_layer_range, (a, rg, id)),
                stage_run(run_layer_range, stages@, acts),
                acts.len() == i + 1,
                acts[0] == initial_activation,
                acts.last() == activation,
            decreases stages@.len() - i,
        {
            let id = stages[i].0.as_str();
            let ghost a_in = activation;
            let step = run_layer_range(activation, &stages[i].1, id);
            assert(stage_step(run_layer_range, stages@[i as int], a_in, step));
            match step {
                Ok(next) => {
                    proof {
                        let prev = acts;
                        acts = acts.push(next);
                        assert forall|j: int| 0 <= j < acts.len() - 1 implies stage_step(
                            run_layer_range, stages@[j], #[trigger] acts[j], Ok::<A, String>(acts[j + 1])) by {
                            if j < prev.len() - 1 {
                                assert(acts[j] == prev[j] && acts[j + 1] == prev[j + 1]);
                            }
                        };
                    }
                    activation = next;
                },
                Err(e) => {
                    return Err(e);
                },
            }
            i = i + 1;
        }
        Ok(activation)
    }

    /// Whether the mesh has more than one stage (a real pipeline).
    pub fn is_multi_stage(&self) -> (b: bool)
        ensures
            b == (self.assignment.stages@.len() > 1),
    {
        self.assignment.stages.len() > 1
    }
}
} // verus!
