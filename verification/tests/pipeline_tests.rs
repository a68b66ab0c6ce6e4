use bramha::inference::pipeline::{
    DeviceKind, DeviceMesh, DeviceSlot, PipelineExecutor, ShardingPlanner,
};

/// Verify single-slot mesh assigns all layers to slot 0.
#[test]
fn test_device_mesh_single_cpu() {
    let mut mesh = DeviceMesh::single_cpu(4, 8 * 1024 * 1024 * 1024);
    assert_eq!(mesh.num_slots(), 1);
    assert_eq!(mesh.slots[0].id, "cpu:0");

    let assignment = ShardingPlanner::plan(&mut mesh, 22, &[]);
    assert_eq!(assignment.stages.len(), 1);
    assert_eq!(assignment.stages[0].1, 0..22);
    assert_eq!(assignment.map.len(), 22);
    for l in 0..22 {
        assert_eq!(assignment.slot_for(l), Some("cpu:0"));
    }
}

/// Verify layers split across two CPU slots when budget is tight.
#[test]
fn test_sharding_planner_two_stage() {
    // Budget: 6 layers per slot × 500MB each = 3GB per slot
    let budget_per_slot = 6 * 500 * 1024 * 1024u64;
    let mut mesh = DeviceMesh {
        slots: vec![
            DeviceSlot::new("cpu:0", DeviceKind::CpuPool { num_threads: 4 }, budget_per_slot),
            DeviceSlot::new("cpu:1", DeviceKind::CpuPool { num_threads: 4 }, budget_per_slot),
        ],
    };
    // 12 layers, 500MB each
    let sizes = vec![500 * 1024 * 1024u64; 12];
    let assignment = ShardingPlanner::plan(&mut mesh, 12, &sizes);

    assert_eq!(assignment.stages.len(), 2);
    // Slot 0 should hold 6 layers (fills budget exactly), slot 1 the rest
    assert_eq!(assignment.stages[0].1, 0..6);
    assert_eq!(assignment.stages[1].1, 6..12);
    for l in 0..6 {
        assert_eq!(assignment.slot_for(l), Some("cpu:0"));
    }
    for l in 6..12 {
        assert_eq!(assignment.slot_for(l), Some("cpu:1"));
    }
}

/// PipelineExecutor with a single stage should pass activation through unchanged.
#[test]
fn test_pipeline_executor_single_stage() {
    let hidden_size = 64usize;
    let mut mesh = DeviceMesh::single_cpu(4, 8 * 1024 * 1024 * 1024);
    let num_layers = 4;
    let assignment = ShardingPlanner::plan(&mut mesh, num_layers, &[]);
    let executor = PipelineExecutor { mesh, assignment };

    let initial: Vec<f32> = (0..hidden_size).map(|i| i as f32).collect();
    let result = executor.execute_step(initial.clone(), |act: Vec<f32>, range: &std::ops::Range<usize>, _slot_id: &str| {
        // Simulate: each layer adds 1.0 to every element
        let mut out = act;
        for _layer in range.clone() {
            for v in out.iter_mut() {
                *v += 1.0;
            }
        }
        Ok(out)
    });

    assert!(result.is_ok());
    let out = result.unwrap();
    assert_eq!(out.len(), hidden_size);
    for (i, &v) in out.iter().enumerate() {
        assert!(
            (v - (i as f32 + num_layers as f32)).abs() < 1e-5,
            "Mismatch at index {}: expected {}, got {}",
            i,
            i as f32 + num_layers as f32,
            v
        );
    }
}

/// Two-stage pipeline produces the same final activation as a single-stage reference.
#[test]
fn test_pipeline_executor_two_stage_matches_reference() {
    let hidden_size = 32usize;
    let num_layers = 8usize;

    let mut single_mesh = DeviceMesh::single_cpu(4, 8 * 1024 * 1024 * 1024);
    let single_assignment = ShardingPlanner::plan(&mut single_mesh, num_layers, &[]);
    let single_executor = PipelineExecutor { mesh: single_mesh, assignment: single_assignment };

    let initial: Vec<f32> = (0..hidden_size).map(|i| i as f32 * 0.5).collect();

    let layer_fn = |act: Vec<f32>, range: &std::ops::Range<usize>, _slot: &str| {
        let mut out = act;
        for layer_idx in range.clone() {
            // Deterministic: multiply element j by (1.0 + 0.01 * layer_idx)
            let scale = 1.0 + 0.01 * layer_idx as f32;
            for v in out.iter_mut() {
                *v *= scale;
            }
        }
        Ok(out)
    };

    let reference = single_executor.execute_step(initial.clone(), layer_fn).unwrap();

    // Budget forces split at layer 4 (half)
    let half_budget = 4 * 500 * 1024 * 1024u64;
    let mut dual_mesh = DeviceMesh {
        slots: vec![
            DeviceSlot::new("cpu:0", DeviceKind::CpuPool { num_threads: 2 }, half_budget),
            DeviceSlot::new("cpu:1", DeviceKind::CpuPool { num_threads: 2 }, half_budget),
        ],
    };
    let sizes = vec![500 * 1024 * 1024u64; num_layers];
    let dual_assignment = ShardingPlanner::plan(&mut dual_mesh, num_layers, &sizes);
    let dual_executor = PipelineExecutor { mesh: dual_mesh, assignment: dual_assignment };

    assert!(dual_executor.is_multi_stage(), "Expected 2 stages");

    let dual_result = dual_executor
        .execute_step(initial.clone(), |act: Vec<f32>, range: &std::ops::Range<usize>, _slot: &str| {
            let mut out = act;
            for layer_idx in range.clone() {
                let scale = 1.0 + 0.01 * layer_idx as f32;
                for v in out.iter_mut() {
                    *v *= scale;
                }
            }
            Ok(out)
        })
        .unwrap();

    assert_eq!(reference.len(), dual_result.len());
    for (i, (&ref_v, &dual_v)) in reference.iter().zip(dual_result.iter()).enumerate() {
        assert!(
            (ref_v - dual_v).abs() < 1e-4,
            "Mismatch at index {}: reference={}, pipeline={}",
            i,
            ref_v,
            dual_v
        );
    }
}

#[test]
fn plan_first_layer_too_large_skips_slot_zero() {
    let mut mesh = DeviceMesh {
        slots: vec![
            DeviceSlot::new("a", DeviceKind::Wgpu, 10),
            DeviceSlot::new("b", DeviceKind::Wgpu, 100),
        ],
    };
    let assignment = ShardingPlanner::plan(&mut mesh, 3, &[20, 5, 5]);
    assert_eq!(assignment.stages.len(), 1);
    assert_eq!(assignment.stages[0].0, "b");
    assert_eq!(assignment.stages[0].1, 0..3);
    assert!(mesh.slots[0].assigned_layers.is_empty());
    assert_eq!(mesh.slots[1].assigned_layers, vec![0, 1, 2]);
    assert_eq!(mesh.slot_for_layer(1), Some(1));
    assert_eq!(mesh.slot_for_layer(7), None);
}

#[test]
fn plan_uses_average_for_unlisted_layers() {
    // listed sizes average to 30; layers 2 and 3 count 30 each
    let mut mesh = DeviceMesh {
        slots: vec![
            DeviceSlot::new("s0", DeviceKind::Wgpu, 60),
            DeviceSlot::new("s1", DeviceKind::Wgpu, 60),
            DeviceSlot::new("s2", DeviceKind::Wgpu, 60),
        ],
    };
    let assignment = ShardingPlanner::plan(&mut mesh, 5, &[20, 40]);
    // s0: 20+40=60 fits; layer 2 (30) moves to s1: 30+30=60 fits; layer 4 moves to s2
    assert_eq!(assignment.stages.len(), 3);
    assert_eq!(assignment.stages[0].1, 0..2);
    assert_eq!(assignment.stages[1].1, 2..4);
    assert_eq!(assignment.stages[2].1, 4..5);
    assert_eq!(assignment.map.len(), 5);
}

#[test]
fn plan_last_slot_takes_overflow_and_replans_cleanly() {
    let mut mesh = DeviceMesh::dual_cpu(2, 200);
    assert_eq!(mesh.slots[0].dram_budget_bytes, 100);
    let a1 = ShardingPlanner::plan(&mut mesh, 6, &[60, 60, 60, 60, 60, 60]);
    assert_eq!(a1.stages[0].1, 0..1);
    assert_eq!(a1.stages[1].1, 1..6);
    let a2 = ShardingPlanner::plan(&mut mesh, 0, &[]);
    assert!(a2.stages.is_empty());
    assert!(a2.map.is_empty());
    assert!(mesh.slots.iter().all(|s| s.assigned_layers.is_empty()));
    let mut empty = DeviceMesh { slots: vec![] };
    let a3 = ShardingPlanner::plan(&mut empty, 4, &[]);
    assert!(a3.stages.is_empty() && a3.map.is_empty());
}

#[test]
fn labels_and_describe() {
    assert_eq!(DeviceKind::CpuPool { num_threads: 12 }.label(), "cpu(12t)");
    assert_eq!(DeviceKind::Wgpu.label(), "wgpu");
    assert_eq!(DeviceKind::Remote { endpoint: "10.0.0.2:50051".to_string() }.label(), "remote(10.0.0.2:50051)");
    let mesh = DeviceMesh::dual_cpu(2, 6 * 500 * 1024 * 1024 * 2);
    let ex = PipelineExecutor::new(mesh, 12, &vec![500 * 1024 * 1024u64; 12]);
    assert_eq!(ex.describe(), "Pipeline[cpu:0: layers 0..6 | cpu:1: layers 6..12]");
    let single = PipelineExecutor::new(DeviceMesh::single_cpu(0, 1), 3, &[]);
    assert_eq!(single.describe(), "Pipeline[cpu:0: layers 0..3]");
    assert!(!single.is_multi_stage());
    assert_eq!(single.mesh.slots[0].kind, DeviceKind::CpuPool { num_threads: 1 });
}

#[test]
fn mesh_for_stage_count() {
    let m1 = DeviceMesh::for_stage_count(1, false, 8, 1000);
    assert_eq!(m1.slots.len(), 1);
    assert_eq!(m1.slots[0].kind, DeviceKind::CpuPool { num_threads: 8 });
    let m2 = DeviceMesh::for_stage_count(2, true, 8, 1000);
    assert_eq!(m2.slots[1].id, "wgpu:0");
    assert_eq!(m2.slots[0].kind, DeviceKind::CpuPool { num_threads: 8 });
    assert_eq!(m2.slots[1].dram_budget_bytes, 4 * 1024 * 1024 * 1024);
    let m3 = DeviceMesh::for_stage_count(3, true, 8, 1000);
    assert_eq!(m3.slots.len(), 3);
    assert_eq!(m3.slots[2].id, "cpu:2");
    assert_eq!(m3.slots[2].kind, DeviceKind::CpuPool { num_threads: 2 });
    assert_eq!(m3.slots[2].dram_budget_bytes, 333);
    let m4 = DeviceMesh::for_stage_count(11, false, 4, 1100);
    assert_eq!(m4.slots[10].id, "cpu:10");
    assert_eq!(m4.slots[10].kind, DeviceKind::CpuPool { num_threads: 1 });
    let g = DeviceMesh::cpu_gpu(3, 77);
    assert_eq!(g.slots[0].dram_budget_bytes, 77);
    assert_eq!(g.slots[1].kind, DeviceKind::Wgpu);
}

#[test]
fn execute_step_stops_at_first_error() {
    let mesh = DeviceMesh::dual_cpu(1, 2 * 4 * 500 * 1024 * 1024);
    let ex = PipelineExecutor::new(mesh, 8, &vec![500 * 1024 * 1024u64; 8]);
    let r: Result<u32, String> = ex.execute_step(0u32, |a: u32, range: &std::ops::Range<usize>, slot: &str| {
        if slot == "cpu:1" { Err(format!("fail at {}", range.start)) } else { Ok(a + range.len() as u32) }
    });
    assert_eq!(r, Err("fail at 4".to_string()));
    let ok: Result<u32, String> = ex.execute_step(1u32, |a: u32, range: &std::ops::Range<usize>, _slot: &str| Ok(a + range.len() as u32));
    assert_eq!(ok, Ok(9));
}

#[test]
fn executor_plan_matches_planner_and_mesh() {
    let base = DeviceMesh {
        slots: vec![
            DeviceSlot::new("s0", DeviceKind::Wgpu, 50),
            DeviceSlot::new("s1", DeviceKind::CpuPool { num_threads: 2 }, 50),
            DeviceSlot::new("s2", DeviceKind::Wgpu, 50),
        ],
    };
    let sizes = [30u64, 30, 10, 40, 20];
    let mut planned = base.clone();
    let a = ShardingPlanner::plan(&mut planned, 6, &sizes);
    let ex = PipelineExecutor::new(base.clone(), 6, &sizes);
    assert_eq!(a.map, ex.assignment.map);
    assert_eq!(a.stages, ex.assignment.stages);
    assert_eq!(planned.slots.len(), ex.mesh.slots.len());
    for (x, y) in planned.slots.iter().zip(ex.mesh.slots.iter()) {
        assert_eq!(x.id, y.id);
        assert_eq!(x.kind, y.kind);
        assert_eq!(x.dram_budget_bytes, y.dram_budget_bytes);
        assert_eq!(x.assigned_layers, y.assigned_layers);
    }
    for l in 0..9usize {
        let by_mesh = planned.slot_for_layer(l).map(|i| planned.slots[i].id.as_str());
        assert_eq!(by_mesh, a.slot_for(l));
        assert_eq!(a.slot_for(l).is_some(), l < 6);
        let holding: Vec<&(String, std::ops::Range<usize>)> =
            a.stages.iter().filter(|(_, r)| r.contains(&l)).collect();
        if l < 6 {
            assert_eq!(holding.len(), 1);
            assert_eq!(Some(holding[0].0.as_str()), a.slot_for(l));
        } else {
            assert!(holding.is_empty());
        }
    }
}
