//! The decision procedure of the execution-path optimizer.

use vstd::prelude::*;
use crate::planner::cost_model::{CostModel, StorageTier, spec_tier_preference};
use crate::planner::policy::PlannerDecision;
use crate::inference::tokenizer::{lowercase, to_lowercase};
use crate::strings::{str_eq, trim, trim_str};

verus! {

pub struct ExecutionPathOptimizer;

/// The facts about a request that the path choice depends on. The cost
/// comparisons are made by the caller on its cost estimates.
#[derive(Debug, Clone, Copy)]
pub struct PathFacts {
    /// The policy mode is `exact_only`.
    pub exact_only: bool,
    /// The policy mode is `spanda`.
    pub spanda_mode: bool,
    /// A deterministic cached answer exists.
    pub has_cache: bool,
    /// A materialized activation view of the prompt exists.
    pub has_activation_view: bool,
    /// The historical accept rate reaches the policy minimum and the
    /// speculative route confidence is at least 0.3.
    pub speculative_eligible: bool,
    /// Speculative decoding is estimated cheaper than exact decoding.
    pub speculative_cheaper: bool,
    /// The sparse engine reports itself healthy.
    pub spanda_healthy: bool,
    /// The sparse route confidence is at least 0.2.
    pub spanda_confident: bool,
    /// The sparse path is estimated cheaper than speculative decoding.
    pub spanda_cheaper_than_speculative: bool,
}

/// The path that the optimizer selects: the `exact_only` policy forces exact
/// decoding; otherwise a cached answer wins, then an activation view forces
/// exact decoding; otherwise speculative decoding is taken when eligible and
/// cheaper, and the sparse path when the sparse engine is healthy, the policy
/// asks for it and its route is trusted, unless speculative decoding was
/// chosen and is not costlier.
pub open spec fn spec_decide(f: PathFacts) -> PlannerDecision {
    if f.exact_only {
        PlannerDecision::ExactDecode
    } else if f.has_cache {
        PlannerDecision::CachedAnswer
    } else if f.has_activation_view {
        PlannerDecision::ExactDecode
    } else {
        let spec_chosen = f.speculative_eligible && f.speculative_cheaper;
        let spanda_ok = f.spanda_healthy && f.spanda_mode && f.spanda_confident;
        if spanda_ok && (!spec_chosen || f.spanda_cheaper_than_speculative) {
            PlannerDecision::SpandaSparse
        } else if spec_chosen {
            PlannerDecision::SpeculativeDecode
        } else {
            PlannerDecision::ExactDecode
        }
    }
}

/// Law: the priorities of the path choice. The `exact_only` policy always
/// gives exact decoding; then a cached answer always wins; then an
/// activation view gives exact decoding. Past those, a healthy, trusted
/// SPANDA in `spanda` mode is taken whenever speculation is not chosen
/// (not eligible or not cheaper), and against chosen speculation exactly
/// when it is cheaper; without usable SPANDA, speculation is taken exactly
/// when eligible and cheaper, else exact decoding. Each result has its
/// reason: SPANDA only when usable, speculation only when eligible and
/// cheaper, a cached answer only with a cache and no `exact_only`.
pub proof fn lemma_decide_priorities(f: PathFacts)
    ensures
        f.exact_only ==> spec_decide(f) == PlannerDecision::ExactDecode,
        !f.exact_only && f.has_cache ==> spec_decide(f) == PlannerDecision::CachedAnswer,
        !f.exact_only && !f.has_cache && f.has_activation_view ==> spec_decide(f) == PlannerDecision::ExactDecode,
        !f.exact_only && !f.has_cache && !f.has_activation_view ==> {
            let spanda_ok = f.spanda_healthy && f.spanda_mode && f.spanda_confident;
            let spec_chosen = f.speculative_eligible && f.speculative_cheaper;
            &&& spanda_ok && !spec_chosen ==> spec_decide(f) == PlannerDecision::SpandaSparse
            &&& spanda_ok && spec_chosen ==> (spec_decide(f) == PlannerDecision::SpandaSparse <==> f.spanda_cheaper_than_speculative)
            &&& spanda_ok && spec_chosen && !f.spanda_cheaper_than_speculative ==> spec_decide(f) == PlannerDecision::SpeculativeDecode
            &&& !spanda_ok && spec_chosen ==> spec_decide(f) == PlannerDecision::SpeculativeDecode
            &&& !spanda_ok && !spec_chosen ==> spec_decide(f) == PlannerDecision::ExactDecode
        },
        spec_decide(f) == PlannerDecision::SpandaSparse ==> f.spanda_healthy && f.spanda_mode && f.spanda_confident,
        spec_decide(f) == PlannerDecision::SpeculativeDecode ==> f.speculative_eligible && f.speculative_cheaper,
        spec_decide(f) == PlannerDecision::CachedAnswer <==> (f.has_cache && !f.exact_only),
{
}

impl ExecutionPathOptimizer {
    /// Selects the execution path for a request from its facts.
    pub fn decide(facts: PathFacts) -> (d: PlannerDecision)
        ensures
            d == spec_decide(facts),
    {
        // Policy-level exact-only bypass
        if facts.exact_only {
            return PlannerDecision::ExactDecode;
        }
        // A deterministic cache hit has absolute priority
        if facts.has_cache {
            return PlannerDecision::CachedAnswer;
        }
        // An activation view makes prefill nearly free: restore it exactly
        if facts.has_activation_view {
            return PlannerDecision::ExactDecode;
        }
        let mut best = PlannerDecision::ExactDecode;
        if facts.speculative_eligible && facts.speculative_cheaper {
            best = PlannerDecision::SpeculativeDecode;
        }
        if facts.spanda_healthy && facts.spanda_mode && facts.spanda_confident {
            if best == PlannerDecision::SpeculativeDecode {
                if facts.spanda_cheaper_than_speculative {
                    best = PlannerDecision::SpandaSparse;
                }
            } else {
                best = PlannerDecision::SpandaSparse;
            }
        }
        best
    }

    /// The storage tier of a layer during planning: the access-pattern tier
    /// when tier-aware planning is on, else always [`StorageTier::Critical`].
    pub fn route_layer_tier(
        tier_aware: bool,
        layer_idx: usize,
        total_layers: usize,
        access_count: u64,
        last_accessed: u64,
        current_time: u64,
    ) -> (t: StorageTier)
        ensures
            t == if tier_aware {
                spec_tier_preference(layer_idx as int, total_layers as int, access_count as int, last_accessed as int, current_time as int)
            } else {
                StorageTier::Critical
            },
    {
        if !tier_aware {
            return StorageTier::Critical;
        }
        CostModel::tier_preference(layer_idx, total_layers, access_count, last_accessed, current_time)
    }
}

/// Whether tier-aware planning is on, given the `BRAMHA_PLANNER_TIER_AWARE`
/// setting: off only when the setting, trimmed and lowercased, is `false`.
pub fn tier_aware_setting(value: Option<&str>) -> (b: bool)
    ensures
        b == (match value {
            Some(v) => lowercase(trim(v@)) != "false"@,
            None => true,
        }),
{
    match value {
        Some(v) => {
            let lower = to_lowercase(trim_str(v));
            !str_eq(lower.as_str(), "false")
        },
        None => true,
    }
}

} // verus!
