use vstd::prelude::*;
use crate::strings::str_eq;
use crate::inference::tokenizer::{lowercase, to_lowercase};

verus! {

/// Where one operation of a forward pass runs.
#[derive(Debug, Clone, Copy, PartialEq, Eq, Structural)]
pub enum BackendTarget {
    Cpu,
    Gpu,
}

/// Routes single operations, or a whole request, between CPU and GPU.
pub struct HeterogeneousScheduler {
    gpu_available: bool,
    force_cpu: bool,
}

/// What a request's model weighs against the GPU memory cap.
#[derive(Debug, Clone, Copy)]
pub struct ModelFootprint {
    /// The model's configured target device is the CPU.
    pub targets_cpu: bool,
    /// Total bytes of the model's layer weights.
    pub weight_bytes: usize,
}

/// The total of a list of byte lengths.
pub open spec fn lengths_total(lens: Seq<usize>) -> int
    decreases lens.len(),
{
    if lens.len() == 0 { 0 } else { lengths_total(lens.drop_last()) + lens.last() }
}

proof fn lemma_lengths_total_prefix(lens: Seq<usize>, i: int)
    requires
        0 <= i <= lens.len(),
    ensures
        0 <= lengths_total(lens.take(i)) <= lengths_total(lens),
    decreases lens.len(),
{
    if lens.len() > 0 {
        if i == lens.len() {
            assert(lens.take(i) =~= lens);
            lemma_lengths_total_prefix(lens.drop_last(), i - 1);
        } else {
            assert(lens.drop_last().take(i) =~= lens.take(i));
            lemma_lengths_total_prefix(lens.drop_last(), i);
        }
    }
}

impl ModelFootprint {
    /// The footprint of a model from its target device name and the byte
    /// lengths of its layer pages: it targets the CPU when the device name,
    /// lowercased, is `cpu`, and weighs the sum of the page lengths.
    pub fn of_model(active_device: &str, page_lengths: &[usize]) -> (f: Self)
        requires
            lengths_total(page_lengths@) <= usize::MAX,
        ensures
            f.targets_cpu == (lowercase(active_device@) == "cpu"@),
            f.weight_bytes == lengths_total(page_lengths@),
    {
        let lowered = to_lowercase(active_device);
        let targets_cpu = str_eq(lowered.as_str(), "cpu");
        let mut total: usize = 0;
        let mut i: usize = 0;
        while i < page_lengths.len()
            invariant
                i <= page_lengths@.len(),
                total == lengths_total(page_lengths@.take(i as int)),
                lengths_total(page_lengths@) <= usize::MAX,
            decreases page_lengths@.len() - i,
        {
            proof {
                let t = page_lengths@.take(i + 1);
                assert(t.drop_last() =~= page_lengths@.take(i as int));
                lemma_lengths_total_prefix(page_lengths@, i + 1);
            }
            total = total + page_lengths[i];
            i = i + 1;
        }
        assert(page_lengths@.take(page_lengths@.len() as int) =~= page_lengths@);
        ModelFootprint { targets_cpu, weight_bytes: total }
    }
}

/// Whether a whole request bypasses the GPU: always when the GPU cannot be
/// used; else, under a VRAM cap, for a model that targets the CPU or whose
/// weights exceed the cap.
pub open spec fn spec_cpu_entirely(gpu_available: bool, force_cpu: bool, max_vram_bytes: Option<usize>, model: Option<ModelFootprint>) -> bool {
    if force_cpu || !gpu_available {
        true
    } else {
        match (max_vram_bytes, model) {
            (Some(max_bytes), Some(m)) => m.targets_cpu || m.weight_bytes > max_bytes,
            _ => false,
        }
    }
}

/// Below this many elements a matrix-vector product stays on the CPU.
pub const GEMV_GPU_MIN_ELEMENTS: usize = 131072;

/// From this many elements on a matrix-matrix product goes to the GPU.
pub const GEMM_GPU_MIN_ELEMENTS: usize = 262144;

/// Where `route_op` sends an operation of `size` elements of kind `op`.
pub open spec fn spec_route_op(gpu_available: bool, force_cpu: bool, size: int, op: Seq<char>) -> BackendTarget {
    if force_cpu || !gpu_available {
        BackendTarget::Cpu
    } else if op == "embedding"@ || op == "sampling"@ {
        BackendTarget::Cpu
    } else if op == "gemv"@ {
        if size < GEMV_GPU_MIN_ELEMENTS { BackendTarget::Cpu } else { BackendTarget::Gpu }
    } else if op == "gemm"@ {
        if size >= GEMM_GPU_MIN_ELEMENTS { BackendTarget::Gpu } else { BackendTarget::Cpu }
    } else {
        BackendTarget::Gpu
    }
}

impl HeterogeneousScheduler {
    pub closed spec fn gpu_available(&self) -> bool {
        self.gpu_available
    }

    pub closed spec fn force_cpu(&self) -> bool {
        self.force_cpu
    }

    /// A scheduler for a machine whose GPU probe gave `gpu_available`, in a
    /// process where CPU-only execution is `force_cpu`.
    pub fn new(gpu_available: bool, force_cpu: bool) -> (s: Self)
        ensures
            s.gpu_available() == gpu_available,
            s.force_cpu() == force_cpu,
    {
        HeterogeneousScheduler { gpu_available, force_cpu }
    }

    /// Decides whether a whole request should bypass the GPU, given the
    /// active VRAM cap (if any) and the footprint of the requested model (if
    /// it is loaded).
    pub fn use_cpu_entirely(&self, max_vram_bytes: Option<usize>, model: Option<ModelFootprint>) -> (b: bool)
        ensures
            b == spec_cpu_entirely(self.gpu_available(), self.force_cpu(), max_vram_bytes, model),
    {
        if self.force_cpu || !self.gpu_available {
            return true;
        }
        match (max_vram_bytes, model) {
            (Some(max_bytes), Some(m)) => m.targets_cpu || m.weight_bytes > max_bytes,
            _ => false,
        }
    }

    /// Routes an operation of `size` elements of kind `op_type` to CPU or GPU.
    pub fn route_op(&self, size: usize, op_type: &str) -> (t: BackendTarget)
        ensures
            t == spec_route_op(self.gpu_available(), self.force_cpu(), size as int, op_type@),
    {
        proof {
            reveal_strlit("embedding");
            reveal_strlit("sampling");
            reveal_strlit("gemv");
            reveal_strlit("gemm");
        }
        if self.force_cpu || !self.gpu_available {
            return BackendTarget::Cpu;
        }
        if str_eq(op_type, "embedding") || str_eq(op_type, "sampling") {
            BackendTarget::Cpu
        } else if str_eq(op_type, "gemv") {
            if size < GEMV_GPU_MIN_ELEMENTS { BackendTarget::Cpu } else { BackendTarget::Gpu }
        } else if str_eq(op_type, "gemm") {
            if size >= GEMM_GPU_MIN_ELEMENTS { BackendTarget::Gpu } else { BackendTarget::Cpu }
        } else {
            BackendTarget::Gpu
        }
    }
}

/// Whether CPU-only mode is in effect: the flag of the running task when it
/// has one, else the process-wide flag or the `BRAMHA_CPU` environment
/// variable being set.
pub fn cpu_only_in_effect(task_flag: Option<bool>, global_flag: bool, env_set: bool) -> (b: bool)
    ensures
        b == (match task_flag {
            Some(t) => t,
            None => global_flag || env_set,
        }),
{
    match task_flag {
        Some(t) => t,
        None => global_flag || env_set,
    }
}

} // verus!
