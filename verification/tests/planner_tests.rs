use bramha::inference::engine::{answers_from_cache, engine_route, fallback_after_failure, forces_exact_decode, EngineRoute};
use bramha::planner::cluster::{ClusterPlanner, HardwareConfig, NodeInfo, NodeRole};
use bramha::planner::cost_model::{CostModel, StorageTier};
use bramha::planner::optimizer::{tier_aware_setting, ExecutionPathOptimizer, PathFacts};
use bramha::planner::policy::PlannerDecision;
use bramha::planner::scheduler::{cpu_only_in_effect, BackendTarget, HeterogeneousScheduler, ModelFootprint};

#[test]
fn test_tier_preference() {
    let current_time = 10000;
    let total_layers = 24;

    // Hot tier for first two and last two
    assert_eq!(CostModel::tier_preference(0, total_layers, 0, 0, current_time), StorageTier::Critical);
    assert_eq!(CostModel::tier_preference(1, total_layers, 0, 0, current_time), StorageTier::Critical);
    assert_eq!(CostModel::tier_preference(22, total_layers, 0, 0, current_time), StorageTier::Critical);
    assert_eq!(CostModel::tier_preference(23, total_layers, 0, 0, current_time), StorageTier::Critical);

    // Middle layer default warm
    assert_eq!(CostModel::tier_preference(10, total_layers, 1, 9900, current_time), StorageTier::Important);

    // Middle layer promoted to hot on second access within 5 minutes
    assert_eq!(CostModel::tier_preference(10, total_layers, 2, 9800, current_time), StorageTier::Critical);

    // Middle layer cold after 1 hour idle
    assert_eq!(CostModel::tier_preference(10, total_layers, 1, 5000, current_time), StorageTier::Redundant);
}

#[test]
fn test_planner_tier_aware_bypass() {
    let current_time = 10000;
    let total_layers = 24;
    // With tier-aware planning, a middle layer is Important (Warm)
    let tier_default = ExecutionPathOptimizer::route_layer_tier(true, 10, total_layers, 1, 9900, current_time);
    assert_eq!(tier_default, StorageTier::Important);
    // Bypassed tier routing defaults all layers to Critical (DRAM)
    let tier_bypassed = ExecutionPathOptimizer::route_layer_tier(false, 10, total_layers, 1, 9900, current_time);
    assert_eq!(tier_bypassed, StorageTier::Critical);
}

#[test]
fn tier_preference_edges() {
    // Tiny models: every layer is hot
    assert_eq!(CostModel::tier_preference(0, 1, 0, 0, 5), StorageTier::Critical);
    assert_eq!(CostModel::tier_preference(3, 3, 0, 0, 5), StorageTier::Critical);
    // Never accessed middle layer stays warm however late
    assert_eq!(CostModel::tier_preference(5, 24, 0, 0, 1_000_000), StorageTier::Important);
    // Exactly one hour idle is cold; exactly five minutes is still hot
    assert_eq!(CostModel::tier_preference(5, 24, 3, 6400, 10000), StorageTier::Redundant);
    assert_eq!(CostModel::tier_preference(5, 24, 3, 9700, 10000), StorageTier::Critical);
    // Clock behind the access time counts as no idle time
    assert_eq!(CostModel::tier_preference(5, 24, 2, 20000, 10000), StorageTier::Critical);
}

fn facts() -> PathFacts {
    PathFacts {
        exact_only: false,
        spanda_mode: false,
        has_cache: false,
        has_activation_view: false,
        speculative_eligible: false,
        speculative_cheaper: false,
        spanda_healthy: false,
        spanda_confident: true,
        spanda_cheaper_than_speculative: false,
    }
}

#[test]
fn decide_follows_priorities() {
    let base = facts();
    assert_eq!(ExecutionPathOptimizer::decide(PathFacts { exact_only: true, has_cache: true, ..base }), PlannerDecision::ExactDecode);
    assert_eq!(ExecutionPathOptimizer::decide(PathFacts { has_cache: true, has_activation_view: true, ..base }), PlannerDecision::CachedAnswer);
    assert_eq!(ExecutionPathOptimizer::decide(PathFacts { has_activation_view: true, speculative_eligible: true, speculative_cheaper: true, ..base }), PlannerDecision::ExactDecode);
    assert_eq!(ExecutionPathOptimizer::decide(PathFacts { speculative_eligible: true, speculative_cheaper: true, ..base }), PlannerDecision::SpeculativeDecode);
    assert_eq!(ExecutionPathOptimizer::decide(PathFacts { speculative_eligible: true, speculative_cheaper: false, ..base }), PlannerDecision::ExactDecode);
    let spanda = PathFacts { spanda_mode: true, spanda_healthy: true, ..base };
    assert_eq!(ExecutionPathOptimizer::decide(spanda), PlannerDecision::SpandaSparse);
    assert_eq!(ExecutionPathOptimizer::decide(PathFacts { spanda_confident: false, ..spanda }), PlannerDecision::ExactDecode);
    assert_eq!(ExecutionPathOptimizer::decide(PathFacts { speculative_eligible: true, speculative_cheaper: true, ..spanda }), PlannerDecision::SpeculativeDecode);
    assert_eq!(ExecutionPathOptimizer::decide(PathFacts { speculative_eligible: true, speculative_cheaper: true, spanda_cheaper_than_speculative: true, ..spanda }), PlannerDecision::SpandaSparse);
    assert_eq!(PlannerDecision::SpandaSparse.to_string(), "SpandaSparse");
    assert_eq!(PlannerDecision::CachedAnswer.to_string(), "CachedAnswer");
}

#[test]
fn scheduler_routes_by_kind_and_size() {
    let s = HeterogeneousScheduler::new(true, false);
    assert_eq!(s.route_op(10000, "gemv"), BackendTarget::Cpu);
    assert_eq!(s.route_op(131072, "gemv"), BackendTarget::Gpu);
    assert_eq!(s.route_op(262143, "gemm"), BackendTarget::Cpu);
    assert_eq!(s.route_op(262144, "gemm"), BackendTarget::Gpu);
    assert_eq!(s.route_op(1 << 30, "embedding"), BackendTarget::Cpu);
    assert_eq!(s.route_op(1 << 30, "sampling"), BackendTarget::Cpu);
    assert_eq!(s.route_op(1, "softmax"), BackendTarget::Gpu);
    let forced = HeterogeneousScheduler::new(true, true);
    assert_eq!(forced.route_op(1 << 30, "gemm"), BackendTarget::Cpu);
    let no_gpu = HeterogeneousScheduler::new(false, false);
    assert_eq!(no_gpu.route_op(1 << 30, "gemm"), BackendTarget::Cpu);
}

#[test]
fn scheduler_cpu_entirely_rules() {
    let forced = HeterogeneousScheduler::new(true, true);
    assert!(forced.use_cpu_entirely(None, None));
    let s = HeterogeneousScheduler::new(true, false);
    assert!(!s.use_cpu_entirely(None, Some(ModelFootprint { targets_cpu: true, weight_bytes: 0 })));
    assert!(s.use_cpu_entirely(Some(600_000_000), Some(ModelFootprint { targets_cpu: true, weight_bytes: 0 })));
    assert!(s.use_cpu_entirely(Some(600_000_000), Some(ModelFootprint { targets_cpu: false, weight_bytes: 600_000_001 })));
    assert!(!s.use_cpu_entirely(Some(600_000_000), Some(ModelFootprint { targets_cpu: false, weight_bytes: 600_000_000 })));
    assert!(!s.use_cpu_entirely(Some(600_000_000), None));
}

fn node(id: &str, role: NodeRole, vram: u64, healthy: bool) -> NodeInfo {
    NodeInfo {
        node_id: id.to_string(),
        address: format!("{}:50051", id),
        role,
        hardware: HardwareConfig { gpu_count: 1, total_vram: 24, has_tensor_cores: true },
        available_vram: vram,
        is_healthy: healthy,
    }
}

#[test]
fn cluster_routes_to_most_vram() {
    let mut p = ClusterPlanner::new();
    assert_eq!(p.route_query_to_node("m", 0), None);
    p.register_node(node("a", NodeRole::DataWorker, 8, true));
    p.register_node(node("b", NodeRole::ControlPlane, 100, true));
    p.register_node(node("c", NodeRole::Mixed, 16, true));
    p.register_node(node("d", NodeRole::DataWorker, 64, false));
    assert_eq!(p.get_healthy_workers().len(), 2);
    assert_eq!(p.route_query_to_node("m", 0), Some("c".to_string()));
    // Re-registering replaces the node
    p.register_node(node("a", NodeRole::DataWorker, 32, true));
    assert_eq!(p.get_healthy_workers().len(), 2);
    assert_eq!(p.route_query_to_node("m", 0), Some("a".to_string()));
    p.remove_node("a");
    assert_eq!(p.route_query_to_node("m", 0), Some("c".to_string()));
    p.remove_node("c");
    assert_eq!(p.route_query_to_node("m", 0), None);
    p.register_node(node("z", NodeRole::DataWorker, 0, true));
    assert_eq!(p.route_query_to_node("m", 0), None);
}

#[test]
fn test_scheduler_routing_logic() {
    let scheduler = HeterogeneousScheduler::new(true, false);
    assert_eq!(scheduler.route_op(10000, "gemv"), BackendTarget::Cpu);
    let target_large = scheduler.route_op(200000, "gemv");
    if scheduler.use_cpu_entirely(Some(600_000_000), None) {
        assert_eq!(target_large, BackendTarget::Cpu);
    } else {
        assert_eq!(target_large, BackendTarget::Gpu);
    }
}

#[test]
fn test_scheduler_cpu_entirely_flag() {
    let cpu_only = cpu_only_in_effect(None, true, false);
    let scheduler = HeterogeneousScheduler::new(true, cpu_only);
    assert!(scheduler.use_cpu_entirely(Some(600_000_000), None));
}

#[test]
fn test_cpu_only_flag_propagation() {
    assert!(cpu_only_in_effect(None, true, false));
    assert!(!cpu_only_in_effect(None, false, false));
    assert!(cpu_only_in_effect(None, false, true));
    assert!(!cpu_only_in_effect(Some(false), true, true));
    assert!(cpu_only_in_effect(Some(true), false, false));
}

#[test]
fn tier_aware_setting_reads_false_only() {
    assert!(tier_aware_setting(None));
    assert!(!tier_aware_setting(Some("false")));
    assert!(!tier_aware_setting(Some("  FALSE \n")));
    assert!(tier_aware_setting(Some("no")));
    assert!(tier_aware_setting(Some("")));
}

#[test]
fn register_then_healthy_workers() {
    let mut p = ClusterPlanner::new();
    p.register_node(node("a", NodeRole::DataWorker, 8, true));
    p.register_node(node("b", NodeRole::Mixed, 8, true));
    let ids = |p: &ClusterPlanner| p.get_healthy_workers().iter().map(|n| n.node_id.clone()).collect::<Vec<_>>();
    assert_eq!(ids(&p), vec!["a", "b"]);
    // an unhealthy registration of "a" replaces it and drops it from the workers
    p.register_node(node("a", NodeRole::DataWorker, 8, false));
    assert_eq!(ids(&p), vec!["b"]);
    // a control plane is never a worker
    p.register_node(node("c", NodeRole::ControlPlane, 8, true));
    assert_eq!(ids(&p), vec!["b"]);
    // a healthy registration of "a" brings it back once, in its place
    p.register_node(node("a", NodeRole::Mixed, 4, true));
    assert_eq!(ids(&p), vec!["a", "b"]);
    assert_eq!(p.get_healthy_workers()[0].available_vram, 4);
}

#[test]
fn generation_routing_steps() {
    assert!(answers_from_cache(PlannerDecision::CachedAnswer, true));
    assert!(!answers_from_cache(PlannerDecision::CachedAnswer, false));
    assert!(!answers_from_cache(PlannerDecision::ExactDecode, true));
    assert!(forces_exact_decode(PlannerDecision::ExactDecode));
    assert!(!forces_exact_decode(PlannerDecision::SpeculativeDecode));
    assert_eq!(engine_route(PlannerDecision::SpandaSparse, true), EngineRoute::Spanda);
    assert_eq!(engine_route(PlannerDecision::ExactDecode, true), EngineRoute::Cpu);
    assert_eq!(engine_route(PlannerDecision::SpeculativeDecode, false), EngineRoute::Gpu);
    // a cached-answer decision without a cached completion still runs an engine
    assert_eq!(engine_route(PlannerDecision::CachedAnswer, false), EngineRoute::Gpu);
    assert_eq!(fallback_after_failure(EngineRoute::Spanda), Some(EngineRoute::Cpu));
    assert_eq!(fallback_after_failure(EngineRoute::Cpu), None);
    assert_eq!(fallback_after_failure(EngineRoute::Gpu), Some(EngineRoute::Cpu));
}

#[test]
fn model_footprint_from_device_and_pages() {
    let f = ModelFootprint::of_model("CPU", &[10, 20, 5]);
    assert!(f.targets_cpu);
    assert_eq!(f.weight_bytes, 35);
    let g = ModelFootprint::of_model("wgpu", &[]);
    assert!(!g.targets_cpu);
    assert_eq!(g.weight_bytes, 0);
    assert!(!ModelFootprint::of_model("cpu0", &[1]).targets_cpu);
    let sched = HeterogeneousScheduler::new(true, false);
    assert!(sched.use_cpu_entirely(Some(30), Some(f)));
    assert!(!sched.use_cpu_entirely(Some(30), Some(ModelFootprint::of_model("gpu", &[10, 20]))));
}
