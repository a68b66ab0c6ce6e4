//! The in-process inference log, kept to a bounded number of recent
//! entries, and the prompt features that the router weighs.

use vstd::prelude::*;
use crate::inference::tokenizer::{contains_seq, str_contains};
use crate::strings::{count_words, word_count};
use crate::planner::policy::PlannerDecision;

verus! {

/// One log line and the time it was recorded (milliseconds since the epoch).
#[derive(Debug)]
pub struct LogEntry {
    pub message: String,
    pub time: u64,
}

/// How many entries the log keeps: the oldest go first.
pub const MAX_LOG_ENTRIES: usize = 2000;

/// The most recent log entries, oldest first.
pub struct InferenceLogger {
    logs: Vec<LogEntry>,
}

/// A log entry as (message, time).
pub open spec fn entry_view(e: LogEntry) -> (Seq<char>, u64) {
    (e.message@, e.time)
}

/// The log after appending `e` to `log`: the oldest entry is dropped when
/// the log would exceed its bound.
pub open spec fn appended(log: Seq<(Seq<char>, u64)>, e: (Seq<char>, u64)) -> Seq<(Seq<char>, u64)> {
    let l = log.push(e);
    if l.len() > MAX_LOG_ENTRIES { l.drop_first() } else { l }
}

/// The entries recorded strictly after `since`, oldest first.
pub open spec fn entries_after(log: Seq<(Seq<char>, u64)>, since: u64) -> Seq<(Seq<char>, u64)> {
    log.filter(|e: (Seq<char>, u64)| e.1 > since)
}

impl InferenceLogger {
    /// The entries, oldest first.
    pub closed spec fn entries(&self) -> Seq<(Seq<char>, u64)> {
        self.logs@.map_values(|e: LogEntry| entry_view(e))
    }

    /// An empty log.
    pub fn new() -> (l: Self)
        ensures
            l.entries() == Seq::<(Seq<char>, u64)>::empty(),
    {
        let l = InferenceLogger { logs: Vec::new() };
        assert(l.entries() =~= Seq::<(Seq<char>, u64)>::empty());
        l
    }

    /// Appends a log line recorded at `time`, dropping the oldest entry when
    /// the log is full.
    pub fn push_entry(&mut self, message: String, time: u64)
        ensures
            final(self).entries() == appended(old(self).entries(), (message@, time)),
    {
        let ghost m = message@;
        self.logs.push(LogEntry { message, time });
        assert(self.entries() =~= old(self).entries().push((m, time)));
        if self.logs.len() > MAX_LOG_ENTRIES {
            let ghost before = self.entries();
            self.logs.remove(0);
            assert(self.entries() =~= before.drop_first());
        }
    }

    /// Copies of the entries recorded strictly after `since`, oldest first.
    pub fn get_logs(&self, since: u64) -> (r: Vec<LogEntry>)
        ensures
            r@.map_values(|e: LogEntry| entry_view(e)) == entries_after(self.entries(), since),
    {
        let ghost pred = |e: (Seq<char>, u64)| e.1 > since;
        let ghost all = self.entries();
        let mut r: Vec<LogEntry> = Vec::new();
        let n = self.logs.len();
        let mut i: usize = 0;
        while i < n
            invariant
                n == self.logs@.len(),
                all == self.entries(),
                pred == |e: (Seq<char>, u64)| e.1 > since,
                i <= n,
                r@.map_values(|e: LogEntry| entry_view(e)) == all.take(i as int).filter(pred),
            decreases n - i,
        {
            let e = &self.logs[i];
            proof {
                let t = all.take(i + 1);
                assert(t.drop_last() =~= all.take(i as int));
                assert(t.last() == entry_view(*e));
                reveal_with_fuel(Seq::filter, 1);
                assert(t.filter(pred) == (if pred(entry_view(*e)) { all.take(i as int).filter(pred).push(entry_view(*e)) }
                    else { all.take(i as int).filter(pred) }));
            }
            if e.time > since {
                let ghost before = r@;
                r.push(LogEntry { message: e.message.clone(), time: e.time });
                assert(r@.map_values(|x: LogEntry| entry_view(x)) =~= before.map_values(|x: LogEntry| entry_view(x)).push(entry_view(*e)));
            }
            i = i + 1;
        }
        assert(all.take(n as int) =~= all);
        r
    }
}

/// Law: the log never holds more than [`MAX_LOG_ENTRIES`] entries.
pub proof fn lemma_log_bounded(log: Seq<(Seq<char>, u64)>, e: (Seq<char>, u64))
    requires
        log.len() <= MAX_LOG_ENTRIES,
    ensures
        appended(log, e).len() <= MAX_LOG_ENTRIES,
        appended(log, e).last() == e,
{
}

/// The words whose presence marks a prompt as technical.
pub open spec fn technical_terms() -> Seq<Seq<char>> {
    seq!["code"@, "rust"@, "compile"@, "error"@, "implement"@, "bramha"@, "database"@]
}

/// The prompt holds one of the technical terms.
pub open spec fn is_technical(prompt: Seq<char>) -> bool {
    exists|k: int| 0 <= k < technical_terms().len() && contains_seq(prompt, #[trigger] technical_terms()[k])
}

/// What makes a prompt complex: more than 15 white-space separated words,
/// and a technical term anywhere in it (case-sensitive).
pub fn query_complexity_factors(prompt: &str) -> (r: (bool, bool))
    ensures
        r.0 == (word_count(prompt@, prompt@.len()) > 15),
        r.1 == is_technical(prompt@),
{
    let long = count_words(prompt) > 15;
    let terms: [&str; 7] = ["code", "rust", "compile", "error", "implement", "bramha", "database"];
    let mut technical = false;
    let mut k: usize = 0;
    while k < 7
        invariant
            k <= 7,
            forall|j: int| 0 <= j < 7 ==> (#[trigger] terms@[j])@ == technical_terms()[j],
            technical == exists|j: int| 0 <= j < k && contains_seq(prompt@, #[trigger] technical_terms()[j]),
        decreases 7 - k,
    {
        if str_contains(prompt, terms[k]) {
            technical = true;
        }
        proof {
            if technical {
                if contains_seq(prompt@, technical_terms()[k as int]) {
                    assert(exists|j: int| 0 <= j < k + 1 && contains_seq(prompt@, #[trigger] technical_terms()[j]));
                }
            }
        }
        k = k + 1;
    }
    (long, technical)
}

/// The engine that runs a generation that was not answered from the cache.
#[derive(Debug, Clone, Copy, PartialEq, Eq, Structural)]
pub enum EngineRoute {
    /// The SPANDA sparse engine, with the CPU engine as its fallback.
    Spanda,
    /// The CPU engine.
    Cpu,
    /// The GPU engine, with the CPU engine as its fallback.
    Gpu,
}

/// A generation returns the cached completion when the optimizer chose the
/// cached answer and a completion is cached.
pub open spec fn spec_answers_from_cache(decision: PlannerDecision, has_cached_completion: bool) -> bool {
    decision == PlannerDecision::CachedAnswer && has_cached_completion
}

/// The engine of a generation: SPANDA when the optimizer chose the sparse
/// path, else the CPU engine when the scheduler placed the whole model on
/// the CPU, else the GPU engine.
pub open spec fn spec_engine_route(decision: PlannerDecision, use_cpu_entirely: bool) -> EngineRoute {
    if decision == PlannerDecision::SpandaSparse {
        EngineRoute::Spanda
    } else if use_cpu_entirely {
        EngineRoute::Cpu
    } else {
        EngineRoute::Gpu
    }
}

/// Law: how a generation is routed. The sparse path always runs on SPANDA
/// and nothing else does; every other decision goes to the CPU engine
/// exactly when the scheduler placed the whole model on the CPU and to the
/// GPU engine otherwise, so such decisions are routed alike. Exactly a
/// cached-answer decision with a cached completion skips the engines.
pub proof fn lemma_generation_routing(decision: PlannerDecision, other: PlannerDecision, use_cpu_entirely: bool, has_cached: bool)
    ensures
        decision == PlannerDecision::SpandaSparse ==> spec_engine_route(decision, use_cpu_entirely) == EngineRoute::Spanda,
        decision != PlannerDecision::SpandaSparse ==> {
            &&& spec_engine_route(decision, use_cpu_entirely) != EngineRoute::Spanda
            &&& (spec_engine_route(decision, use_cpu_entirely) == EngineRoute::Cpu <==> use_cpu_entirely)
            &&& (spec_engine_route(decision, use_cpu_entirely) == EngineRoute::Gpu <==> !use_cpu_entirely)
        },
        decision != PlannerDecision::SpandaSparse && other != PlannerDecision::SpandaSparse ==>
            spec_engine_route(decision, use_cpu_entirely) == spec_engine_route(other, use_cpu_entirely),
        spec_answers_from_cache(decision, has_cached) ==> decision == PlannerDecision::CachedAnswer && has_cached,
        decision == PlannerDecision::CachedAnswer && has_cached ==> spec_answers_from_cache(decision, has_cached),
{
}

/// Whether a generation returns the cached completion at once, before any
/// engine is prepared.
pub fn answers_from_cache(decision: PlannerDecision, has_cached_completion: bool) -> (b: bool)
    ensures
        b == spec_answers_from_cache(decision, has_cached_completion),
{
    match decision {
        PlannerDecision::CachedAnswer => has_cached_completion,
        _ => false,
    }
}

/// Whether speculation is bypassed for the generation: exactly when the
/// optimizer chose exact decoding.
pub fn forces_exact_decode(decision: PlannerDecision) -> (b: bool)
    ensures
        b == (decision == PlannerDecision::ExactDecode),
{
    match decision {
        PlannerDecision::ExactDecode => true,
        _ => false,
    }
}

/// The engine that runs a generation that the cache did not answer.
pub fn engine_route(decision: PlannerDecision, use_cpu_entirely: bool) -> (r: EngineRoute)
    ensures
        r == spec_engine_route(decision, use_cpu_entirely),
{
    match decision {
        PlannerDecision::SpandaSparse => EngineRoute::Spanda,
        _ => if use_cpu_entirely { EngineRoute::Cpu } else { EngineRoute::Gpu },
    }
}

/// The engine to retry with after `route` failed: the CPU engine after
/// SPANDA or the GPU engine (the GPU path falls back to the CPU engine), none
/// after the CPU engine (its error is the answer).
pub fn fallback_after_failure(route: EngineRoute) -> (r: Option<EngineRoute>)
    ensures
        r == (if route == EngineRoute::Cpu { None::<EngineRoute> } else { Some(EngineRoute::Cpu) }),
{
    match route {
        EngineRoute::Cpu => None,
        _ => Some(EngineRoute::Cpu),
    }
}

} // verus!
