//! Storage-tier selection for model layers from their access pattern.

use vstd::prelude::*;

verus! {

/// Where the weights of a layer should live.
#[derive(Debug, Clone, Copy, PartialEq, Eq, Structural)]
pub enum StorageTier {
    /// Always resident in DRAM.
    Critical,
    /// Warm: resident while in use.
    Important,
    /// Cold: may be demoted to slower storage.
    Redundant,
}

pub struct CostModel;

/// Seconds of idleness after which a middle layer turns cold.
pub const COLD_AFTER_SECS: u64 = 3600;

/// Window in seconds within which a repeated access makes a middle layer hot.
pub const HOT_WINDOW_SECS: u64 = 300;

/// The tier rules: the first two and the last two layers are hot; a middle
/// layer idle for an hour is cold; one accessed twice or more within five
/// minutes is hot; any other is warm.
pub open spec fn spec_tier_preference(layer_idx: int, total_layers: int, access_count: int, last_accessed: int, current_time: int) -> StorageTier {
    let idle = if current_time >= last_accessed { current_time - last_accessed } else { 0 };
    let last_two = if total_layers >= 2 { total_layers - 2 } else { 0 };
    if layer_idx == 0 || layer_idx == 1 || layer_idx >= last_two {
        StorageTier::Critical
    } else if last_accessed > 0 && idle >= COLD_AFTER_SECS {
        StorageTier::Redundant
    } else if access_count >= 2 && idle <= HOT_WINDOW_SECS {
        StorageTier::Critical
    } else {
        StorageTier::Important
    }
}

impl CostModel {
    /// Selects the storage tier of a layer from its position and access pattern.
    pub fn tier_preference(
        layer_idx: usize,
        total_layers: usize,
        access_count: u64,
        last_accessed: u64,
        current_time: u64,
    ) -> (t: StorageTier)
        ensures
            t == spec_tier_preference(layer_idx as int, total_layers as int, access_count as int, last_accessed as int, current_time as int),
    {
        // Hot tier: layers 0, 1 and the final two layers are always resident
        if layer_idx == 0 || layer_idx == 1 || layer_idx >= total_layers.saturating_sub(2) {
            return StorageTier::Critical;
        }
        // Demoted after an hour idle
        let idle_time = current_time.saturating_sub(last_accessed);
        if last_accessed > 0 && idle_time >= COLD_AFTER_SECS {
            return StorageTier::Redundant;
        }
        // Promoted on a second access within five minutes
        if access_count >= 2 && idle_time <= HOT_WINDOW_SECS {
            return StorageTier::Critical;
        }
        StorageTier::Important
    }
}

} // verus!
