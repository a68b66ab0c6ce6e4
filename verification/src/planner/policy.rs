//! The execution paths that the planner chooses between.

use vstd::prelude::*;
use crate::strings::to_string;

verus! {

/// An execution path for a request.
#[derive(Debug, Clone, Copy, PartialEq, Eq, Structural)]
pub enum PlannerDecision {
    ExactDecode,
    SpeculativeDecode,
    CachedAnswer,
    SpandaSparse,
}

/// The name of a path, as it is logged and stored in route statistics.
pub open spec fn decision_name(d: PlannerDecision) -> Seq<char> {
    match d {
        PlannerDecision::ExactDecode => "ExactDecode"@,
        PlannerDecision::SpeculativeDecode => "SpeculativeDecode"@,
        PlannerDecision::CachedAnswer => "CachedAnswer"@,
        PlannerDecision::SpandaSparse => "SpandaSparse"@,
    }
}

impl PlannerDecision {
    /// The name of the path (what `Display` shows).
    pub fn to_string(&self) -> (s: String)
        ensures
            s@ == decision_name(*self),
    {
        match self {
            PlannerDecision::ExactDecode => to_string("ExactDecode"),
            PlannerDecision::SpeculativeDecode => to_string("SpeculativeDecode"),
            PlannerDecision::CachedAnswer => to_string("CachedAnswer"),
            PlannerDecision::SpandaSparse => to_string("SpandaSparse"),
        }
    }
}

} // verus!
