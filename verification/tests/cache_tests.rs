use bramha::inference::manifest::{layer_index, max_layer_index, LayerMetadata, ModelManifest};
use bramha::models::quantization::{pack_nibbles, pack_row, unpack_nibbles, unpack_row};
use bramha::inference::paged_kv::prefix_cache::{entry_matches_prefix, prefix_save_plan, slice_prefix_entry};
use bramha::inference::pipeline::{DeviceKind, DeviceMesh, DeviceSlot, ShardingPlanner};
use bramha::inference::rerank_cache::RerankCache;
use bramha::inference::vram_cache::VramCache;

#[test]
fn test_vram_cache_lru_eviction() {
    let mut cache: VramCache<Vec<f32>, Vec<f32>> = VramCache::new(10, Some(100), true);
    let t1 = vec![0.0f32; 10];
    let t2 = vec![0.0f32; 10];
    let t3 = vec![0.0f32; 10];

    cache.enforce_limits(40);
    cache.layers_1d.push(("t1".to_string(), t1));
    cache.tensor_sizes.push(("t1".to_string(), 40));
    cache.current_vram_bytes += 40;
    cache.record_access("t1");

    cache.enforce_limits(40);
    cache.layers_1d.push(("t2".to_string(), t2));
    cache.tensor_sizes.push(("t2".to_string(), 40));
    cache.current_vram_bytes += 40;
    cache.record_access("t2");

    assert_eq!(cache.current_vram_bytes, 80);
    assert!(cache.contains("t1"));
    assert!(cache.contains("t2"));

    cache.enforce_limits(40);
    cache.layers_1d.push(("t3".to_string(), t3));
    cache.tensor_sizes.push(("t3".to_string(), 40));
    cache.current_vram_bytes += 40;
    cache.record_access("t3");

    assert_eq!(cache.current_vram_bytes, 80);
    assert!(!cache.contains("t1"));
    assert!(cache.contains("t2"));
    assert!(cache.contains("t3"));
}

#[test]
fn vram_cache_insert_touch_and_cap() {
    let mut cache: VramCache<u8, u16> = VramCache::new(10, Some(100), true);
    assert!(cache.insert_1d("a", 1, 40).is_empty());
    assert!(cache.insert_2d("b", 2, 40).is_empty());
    cache.record_access("a");
    let evicted = cache.insert_1d("c", 3, 40);
    assert_eq!(evicted, vec![("b".to_string(), 40)]);
    assert_eq!(cache.get_1d("a"), Some(&1));
    assert_eq!(cache.get_2d("b"), None);
    assert_eq!(cache.get_1d("c"), Some(&3));
    assert_eq!(cache.current_vram_bytes, 80);
    let evicted = cache.set_max_vram_bytes(50);
    assert_eq!(evicted, vec![("a".to_string(), 40)]);
    assert_eq!(cache.current_vram_bytes, 40);

    let mut small: VramCache<u8, u8> = VramCache::new(1, None, true);
    small.insert_1d("x", 1, 5);
    small.insert_1d("y", 2, 5);
    assert!(small.contains("x"));
    assert!(!small.contains("y"));
}

#[test]
fn prefix_save_plans() {
    assert_eq!(prefix_save_plan(35, 0, Some(70)), Some((2, vec![16, 32])));
    assert_eq!(prefix_save_plan(35, 4, Some(70)), Some((2, vec![16])));
    assert_eq!(prefix_save_plan(35, 35, Some(70)), None);
    assert_eq!(prefix_save_plan(15, 0, Some(30)), None);
    assert_eq!(prefix_save_plan(35, 0, None), None);
    assert_eq!(prefix_save_plan(35, 0, Some(0)), None);
    assert_eq!(prefix_save_plan(35, 0, Some(20)), Some((0, vec![])));
}

#[test]
fn prefix_entries_slice_layers() {
    let tokens: Vec<u32> = (1..=35).collect();
    let keys = vec![vec![0.5f32; 70], vec![0.7f32; 70]];
    let values = vec![vec![1.5f32; 70], vec![1.7f32; 70]];
    let e = slice_prefix_entry(&tokens, &keys, &values, 32, 2, 99).unwrap();
    assert_eq!(e.tokens, tokens[..32].to_vec());
    assert_eq!(e.keys.len(), 2);
    assert_eq!(e.keys[0], vec![0.5f32; 64]);
    assert_eq!(e.values[1], vec![1.7f32; 64]);
    assert_eq!(e.last_accessed, 99);
    let short = vec![vec![0.5f32; 70], vec![0.7f32; 10]];
    assert_eq!(
        slice_prefix_entry(&tokens, &short, &values, 32, 2, 0).err(),
        Some("KV length is shorter than sliced prefix length".to_string())
    );
    assert!(entry_matches_prefix(&tokens[..16], &tokens, 16));
    assert!(!entry_matches_prefix(&tokens[..16], &tokens, 32));
    assert!(!entry_matches_prefix(&[9, 2, 3], &tokens, 3));
}

fn meta(id: &str, bytes: u64) -> LayerMetadata {
    LayerMetadata { layer_id: id.to_string(), stored_bytes: bytes }
}

#[test]
fn manifest_layer_indices_and_sizes() {
    assert_eq!(layer_index("model.layers.5.self_attn.q_proj.weight"), Some(5));
    assert_eq!(layer_index("model.layers.12"), Some(12));
    assert_eq!(layer_index("model.embed_tokens.weight"), None);
    assert_eq!(layer_index("model.layers.x.mlp"), None);
    assert_eq!(layer_index("layers.3"), None);
    let manifest = ModelManifest {
        layers: vec![
            meta("model.layers.1.mlp.up_proj.weight", 20),
            meta("model.embed_tokens.weight", 999),
            meta("model.layers.0.self_attn.q_proj.weight", 10),
            meta("model.layers.1.self_attn.q_proj.weight", 25),
            meta("model.layers.3.input_layernorm.weight", 30),
        ],
    };
    assert_eq!(manifest.layer_sizes(), vec![10, 20, 30]);
}

#[test]
fn plan_from_manifest_uses_layer_sizes() {
    let mut mesh = DeviceMesh {
        slots: vec![
            DeviceSlot::new("cpu:0", DeviceKind::CpuPool { num_threads: 1 }, 25),
            DeviceSlot::new("cpu:1", DeviceKind::CpuPool { num_threads: 1 }, 1000),
        ],
    };
    let manifest = ModelManifest {
        layers: vec![
            meta("model.layers.0.a", 10),
            meta("model.layers.1.a", 10),
            meta("model.layers.2.a", 10),
        ],
    };
    assert!(ShardingPlanner::fits(&mesh, 3, &manifest.layer_sizes()));
    let a = ShardingPlanner::plan_from_manifest(&mut mesh, 3, &manifest);
    assert_eq!(a.stages.len(), 2);
    assert_eq!(a.stages[0].1, 0..2);
    assert_eq!(a.stages[1].1, 2..3);
}

#[test]
fn planner_fit_check() {
    let mesh = DeviceMesh {
        slots: vec![
            DeviceSlot::new("cpu:0", DeviceKind::CpuPool { num_threads: 1 }, 10),
            DeviceSlot::new("cpu:1", DeviceKind::CpuPool { num_threads: 1 }, 10),
        ],
    };
    assert!(ShardingPlanner::fits(&mesh, 12, &[]));
    assert!(!ShardingPlanner::fits(&mesh, 2, &[u64::MAX, 1]));
    assert!(!ShardingPlanner::fits(&mesh, 3, &[5, u64::MAX - 5, u64::MAX - 5]));
    assert!(ShardingPlanner::fits(&mesh, 0, &[u64::MAX, 1]));
    let single = DeviceMesh::single_cpu(1, 10);
    assert!(ShardingPlanner::fits(&single, 2, &[u64::MAX, 1]));
}

#[test]
fn mesh_from_settings() {
    let m = DeviceMesh::from_settings(None, false, 1000);
    assert_eq!(m.num_slots(), 1);
    assert_eq!(m.slots[0].dram_budget_bytes, 1000);
    let m = DeviceMesh::from_settings(Some("3"), false, 900);
    assert_eq!(m.num_slots(), 3);
    assert_eq!(m.slots[2].id, "cpu:2");
    assert_eq!(m.slots[2].dram_budget_bytes, 300);
    let m = DeviceMesh::from_settings(Some("2"), true, 900);
    assert_eq!(m.slots[1].kind, DeviceKind::Wgpu);
    let m = DeviceMesh::from_settings(Some("two"), true, 900);
    assert_eq!(m.num_slots(), 1);
}

#[test]
fn nibble_packing_round_trips() {
    assert_eq!(pack_nibbles(0xA, 0x3), 0xA3);
    assert_eq!(pack_nibbles(0x1F, 0x25), 0xF5);
    assert_eq!(unpack_nibbles(0xA3), (0xA, 0x3));
    let codes = vec![1u8, 15, 8, 0, 7, 9];
    let packed = pack_row(&codes);
    assert_eq!(packed, vec![0x1F, 0x80, 0x79]);
    assert_eq!(unpack_row(&packed), codes);
    assert_eq!(pack_row(&unpack_row(&[0x00, 0xFF, 0x5C])), vec![0x00, 0xFF, 0x5C]);
}

#[test]
fn deepest_calibrated_layer() {
    let keys = vec![
        "model.embed_tokens.weight".to_string(),
        "model.layers.3.mlp.up_proj.weight".to_string(),
        "model.layers.21.input_layernorm.weight".to_string(),
        "model.layers.x.mlp".to_string(),
        "other.layers.40.mlp".to_string(),
    ];
    assert_eq!(max_layer_index(&keys), 21);
    assert_eq!(max_layer_index(&Vec::new()), 0);
}

#[test]
fn rerank_cache_is_first_in_first_out() {
    let mut c: RerankCache<f32> = RerankCache::new(2);
    c.insert("a".to_string(), 1.0);
    c.insert("b".to_string(), 2.0);
    c.insert("a".to_string(), 9.0);
    assert_eq!(c.get("a"), Some(1.0));
    c.insert("c".to_string(), 3.0);
    assert_eq!(c.get("a"), None);
    assert_eq!(c.get("b"), Some(2.0));
    assert_eq!(c.get("c"), Some(3.0));
    assert_eq!(c.len(), 2);
    let mut z: RerankCache<u8> = RerankCache::new(0);
    z.insert("x".to_string(), 1);
    z.insert("y".to_string(), 2);
    assert_eq!(z.get("x"), None);
    assert_eq!(z.get("y"), Some(2));
    assert_eq!(z.len(), 1);
}

#[test]
fn manifest_plan_matches_plan_on_layer_sizes() {
    let base = DeviceMesh {
        slots: vec![
            DeviceSlot::new("cpu:0", DeviceKind::CpuPool { num_threads: 1 }, 35),
            DeviceSlot::new("cpu:1", DeviceKind::CpuPool { num_threads: 1 }, 1000),
        ],
    };
    let manifest = ModelManifest {
        layers: vec![
            meta("model.layers.2.a", 5),
            meta("model.layers.0.a", 20),
            meta("model.norm.weight", 7),
            meta("model.layers.0.b", 99),
            meta("model.layers.1.a", 10),
        ],
    };
    let sizes = manifest.layer_sizes();
    assert_eq!(sizes, vec![20, 10, 5]);
    let mut m1 = base.clone();
    let a1 = ShardingPlanner::plan_from_manifest(&mut m1, 4, &manifest);
    let mut m2 = base.clone();
    let a2 = ShardingPlanner::plan(&mut m2, 4, &sizes);
    assert_eq!(a1.map, a2.map);
    assert_eq!(a1.stages, a2.stages);
    for (x, y) in m1.slots.iter().zip(m2.slots.iter()) {
        assert_eq!(x.assigned_layers, y.assigned_layers);
    }
    // 20 + 10 fit the first slot; layer 2 (5) fits too; layer 3 (mean 11) overflows
    assert_eq!(a1.stages[0].1, 0..3);
    assert_eq!(a1.stages[1].1, 3..4);
}
