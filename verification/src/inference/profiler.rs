//! Runtime performance profiler for the CPU inference pipeline: per operation
//! name it keeps the number of calls and the total, least and greatest time.

use vstd::prelude::*;
use crate::strings::{str_eq, to_string};

verus! {

broadcast use {vstd::seq_lib::group_to_multiset_ensures, vstd::multiset::group_multiset_axioms};

/// Timing statistics of one operation, in microseconds.
#[derive(Clone, Copy, Debug)]
pub struct TimingStats {
    pub count: u32,
    pub total_us: u64,
    pub min_us: u64,
    pub max_us: u64,
}

/// The statistics before any call: no calls, nothing spent, the least time at
/// its maximum value and the greatest at zero.
pub open spec fn empty_stats() -> TimingStats {
    TimingStats { count: 0, total_us: 0, min_us: u64::MAX, max_us: 0 }
}

/// The statistics `st` after one more call that took `d` microseconds.
pub open spec fn recorded(st: TimingStats, d: u64) -> TimingStats {
    TimingStats {
        count: (st.count + 1) as u32,
        total_us: (st.total_us + d) as u64,
        min_us: if d < st.min_us { d } else { st.min_us },
        max_us: if d > st.max_us { d } else { st.max_us },
    }
}

/// One more call of `d` microseconds fits the counters of `st`.
pub open spec fn can_record(st: TimingStats, d: u64) -> bool {
    st.count < u32::MAX && st.total_us + d <= u64::MAX
}

impl Default for TimingStats {
    fn default() -> (s: Self)
        ensures
            s == empty_stats(),
    {
        Self::new()
    }
}

impl TimingStats {
    pub fn new() -> (s: Self)
        ensures
            s == empty_stats(),
    {
        TimingStats { count: 0, total_us: 0, min_us: u64::MAX, max_us: 0 }
    }

    /// Adds one call that took `duration_us` microseconds.
    pub fn record(&mut self, duration_us: u64)
        requires
            can_record(*old(self), duration_us),
        ensures
            *final(self) == recorded(*old(self), duration_us),
    {
        self.count = self.count + 1;
        self.total_us = self.total_us + duration_us;
        self.min_us = if duration_us < self.min_us { duration_us } else { self.min_us };
        self.max_us = if duration_us > self.max_us { duration_us } else { self.max_us };
    }
}

/// The statistics `st` after calls that took `ds` microseconds, in order.
pub open spec fn recorded_run(st: TimingStats, ds: Seq<u64>) -> TimingStats
    decreases ds.len(),
{
    if ds.len() == 0 {
        st
    } else {
        recorded(recorded_run(st, ds.drop_last()), ds.last())
    }
}

/// The sum of `ds`.
pub open spec fn run_total(ds: Seq<u64>) -> int
    decreases ds.len(),
{
    if ds.len() == 0 { 0 } else { run_total(ds.drop_last()) + ds.last() }
}

/// The least of `ds` (`u64::MAX` when there is none).
pub open spec fn run_min(ds: Seq<u64>) -> u64
    decreases ds.len(),
{
    if ds.len() == 0 {
        u64::MAX
    } else if ds.last() < run_min(ds.drop_last()) {
        ds.last()
    } else {
        run_min(ds.drop_last())
    }
}

/// The greatest of `ds` (0 when there is none).
pub open spec fn run_max(ds: Seq<u64>) -> u64
    decreases ds.len(),
{
    if ds.len() == 0 {
        0
    } else if ds.last() > run_max(ds.drop_last()) {
        ds.last()
    } else {
        run_max(ds.drop_last())
    }
}

proof fn lemma_run_total_prefix(ds: Seq<u64>, i: int)
    requires
        0 <= i <= ds.len(),
    ensures
        0 <= run_total(ds.take(i)) <= run_total(ds),
    decreases ds.len(),
{
    if ds.len() > 0 {
        if i == ds.len() {
            assert(ds.take(i) =~= ds);
            lemma_run_total_prefix(ds.drop_last(), i - 1);
        } else {
            assert(ds.drop_last().take(i) =~= ds.take(i));
            lemma_run_total_prefix(ds.drop_last(), i);
        }
    }
}

/// Law: statistics started empty and fed a run of calls that took
/// `ds[0]`, ..., `ds[k-1]` microseconds hold the number of calls, their
/// total time, and the least and greatest of them; with at least one call
/// the least is at most the greatest. Every call of the run fits the
/// counters, as long as the calls number at most `u32::MAX` and their total
/// fits a `u64`.
pub proof fn lemma_run_of_records(ds: Seq<u64>)
    requires
        ds.len() <= u32::MAX,
        run_total(ds) <= u64::MAX,
    ensures
        forall|i: int| 0 <= i < ds.len() ==> can_record(#[trigger] recorded_run(empty_stats(), ds.take(i)), ds[i]),
        recorded_run(empty_stats(), ds).count == ds.len(),
        recorded_run(empty_stats(), ds).total_us == run_total(ds),
        recorded_run(empty_stats(), ds).min_us == run_min(ds),
        recorded_run(empty_stats(), ds).max_us == run_max(ds),
        ds.len() > 0 ==> recorded_run(empty_stats(), ds).min_us <= recorded_run(empty_stats(), ds).max_us,
    decreases ds.len(),
{
    if ds.len() > 0 {
        let p = ds.drop_last();
        lemma_run_total_prefix(ds, ds.len() - 1);
        assert(ds.take(ds.len() - 1) =~= p);
        lemma_run_of_records(p);
        assert forall|i: int| 0 <= i < ds.len() implies can_record(#[trigger] recorded_run(empty_stats(), ds.take(i)), ds[i]) by {
            if i < ds.len() - 1 {
                assert(p.take(i) =~= ds.take(i));
                assert(p[i] == ds[i]);
                assert(can_record(recorded_run(empty_stats(), p.take(i)), p[i]));
            }
        };
        if p.len() > 0 {
            assert(run_min(p) <= run_max(p));
        }
    }
}

/// Per-operation timing statistics, in the order the operations were first
/// recorded; each operation name occurs once.
pub struct Profiler {
    stats: Vec<(String, TimingStats)>,
}

impl Profiler {
    /// No operation name occurs twice.
    #[verifier::type_invariant]
    spec fn wf(&self) -> bool {
        names_unique(entry_views(self.stats@))
    }
}

/// The entries as (name, statistics) pairs.
pub open spec fn entry_views(v: Seq<(String, TimingStats)>) -> Seq<(Seq<char>, TimingStats)> {
    v.map_values(|e: (String, TimingStats)| (e.0@, e.1))
}

/// No name occurs twice.
pub open spec fn names_unique(e: Seq<(Seq<char>, TimingStats)>) -> bool {
    forall|i: int, j: int| 0 <= i < e.len() && 0 <= j < e.len() && i != j ==> (#[trigger] e[i]).0 != (#[trigger] e[j]).0
}

/// `i` is the first position of `name` among the entries.
pub open spec fn first_position(e: Seq<(Seq<char>, TimingStats)>, name: Seq<char>, i: int) -> bool {
    0 <= i < e.len() && e[i].0 == name && forall|j: int| 0 <= j < i ==> (#[trigger] e[j]).0 != name
}

/// The first position of `name` among the entries, if it occurs.
pub open spec fn position_of(e: Seq<(Seq<char>, TimingStats)>, name: Seq<char>) -> Option<int> {
    if exists|i: int| #[trigger] first_position(e, name, i) {
        Some(choose|i: int| #[trigger] first_position(e, name, i))
    } else {
        None
    }
}

/// The statistics of `name` among the entries, if any.
pub open spec fn stats_in(e: Seq<(Seq<char>, TimingStats)>, name: Seq<char>) -> Option<TimingStats> {
    match position_of(e, name) {
        Some(i) => Some(e[i].1),
        None => None,
    }
}

/// The entries after one more call of `name` taking `d` microseconds: its
/// statistics are updated in place, or appended when `name` is new.
pub open spec fn recorded_entries(e: Seq<(Seq<char>, TimingStats)>, name: Seq<char>, d: u64) -> Seq<(Seq<char>, TimingStats)> {
    match position_of(e, name) {
        Some(i) => e.update(i, (name, recorded(e[i].1, d))),
        None => e.push((name, recorded(empty_stats(), d))),
    }
}

proof fn lemma_position_at(e: Seq<(Seq<char>, TimingStats)>, name: Seq<char>, i: int)
    requires
        first_position(e, name, i),
    ensures
        position_of(e, name) == Some(i),
{
    let k = choose|k: int| #[trigger] first_position(e, name, k);
    if k < i {
        assert(e[k].0 != name);
    }
    if i < k {
        assert(e[i].0 != name);
    }
}

proof fn lemma_no_position(e: Seq<(Seq<char>, TimingStats)>, name: Seq<char>, i: int)
    requires
        position_of(e, name) is None,
        0 <= i < e.len(),
    ensures
        e[i].0 != name,
    decreases i,
{
    if e[i].0 == name {
        if forall|j: int| 0 <= j < i ==> (#[trigger] e[j]).0 != name {
            assert(first_position(e, name, i));
        } else {
            let j = choose|j: int| 0 <= j < i && (#[trigger] e[j]).0 == name;
            lemma_no_position(e, name, j);
        }
    }
}

/// Law: what a recorded call writes is what is read back. After a call of
/// `name`, its statistics are its earlier ones (or none) with that call
/// added; the statistics of every other name are unchanged.
pub proof fn lemma_stats_after_record(e: Seq<(Seq<char>, TimingStats)>, name: Seq<char>, d: u64, other: Seq<char>)
    ensures
        stats_in(recorded_entries(e, name, d), name)
            == Some(recorded(match stats_in(e, name) { Some(st) => st, None => empty_stats() }, d)),
        other != name ==> stats_in(recorded_entries(e, name, d), other) == stats_in(e, other),
{
    let r = recorded_entries(e, name, d);
    match position_of(e, name) {
        Some(i) => {
            assert(first_position(e, name, i));
            assert forall|j: int| 0 <= j < i implies (#[trigger] r[j]).0 != name by {
                assert(r[j] == e[j]);
            };
            assert(first_position(r, name, i));
            lemma_position_at(r, name, i);
            if other != name {
                match position_of(e, other) {
                    Some(p) => {
                        assert(first_position(e, other, p));
                        assert(p != i);
                        assert forall|j: int| 0 <= j < p implies (#[trigger] r[j]).0 != other by {
                            if j != i {
                                assert(r[j] == e[j]);
                            }
                        };
                        assert(r[p] == e[p]);
                        assert(first_position(r, other, p));
                        lemma_position_at(r, other, p);
                    },
                    None => {
                        if exists|p: int| #[trigger] first_position(r, other, p) {
                            let p = choose|p: int| #[trigger] first_position(r, other, p);
                            if p != i {
                                assert(r[p] == e[p]);
                                lemma_no_position(e, other, p);
                            }
                        }
                    },
                }
            }
        },
        None => {
            let n = e.len() as int;
            assert forall|j: int| 0 <= j < n implies (#[trigger] r[j]).0 != name by {
                assert(r[j] == e[j]);
                lemma_no_position(e, name, j);
            };
            assert(first_position(r, name, n));
            lemma_position_at(r, name, n);
            if other != name {
                match position_of(e, other) {
                    Some(p) => {
                        assert(first_position(e, other, p));
                        assert forall|j: int| 0 <= j < p implies (#[trigger] r[j]).0 != other by {
                            assert(r[j] == e[j]);
                        };
                        assert(r[p] == e[p]);
                        assert(first_position(r, other, p));
                        lemma_position_at(r, other, p);
                    },
                    None => {
                        if exists|p: int| #[trigger] first_position(r, other, p) {
                            let p = choose|p: int| #[trigger] first_position(r, other, p);
                            if p < n {
                                assert(r[p] == e[p]);
                                lemma_no_position(e, other, p);
                            }
                        }
                    },
                }
            }
        },
    }
}

/// `s` is ordered by total time, greatest first.
pub open spec fn by_total_desc(s: Seq<(Seq<char>, TimingStats)>) -> bool {
    forall|i: int, j: int| 0 <= i < j < s.len() ==> (#[trigger] s[i]).1.total_us >= (#[trigger] s[j]).1.total_us
}

impl Profiler {
    /// The recorded (name, statistics) pairs, in first-recorded order.
    pub closed spec fn entries(&self) -> Seq<(Seq<char>, TimingStats)> {
        entry_views(self.stats@)
    }

    /// The statistics recorded under `name`, if any.
    pub open spec fn stats_of(&self, name: Seq<char>) -> Option<TimingStats> {
        stats_in(self.entries(), name)
    }

    /// An empty profiler.
    pub fn new() -> (p: Self)
        ensures
            p.entries() == Seq::<(Seq<char>, TimingStats)>::empty(),
    {
        let p = Profiler { stats: Vec::new() };
        assert(entry_views(p.stats@) =~= Seq::<(Seq<char>, TimingStats)>::empty());
        p
    }

    /// Adds one call of `name` that took `duration_us` microseconds: the
    /// statistics of `name` are updated in place, or appended when `name` is
    /// new.
    pub fn record(&mut self, name: &str, duration_us: u64)
        requires
            old(self).stats_of(name@) matches Some(st) ==> can_record(st, duration_us),
        ensures
            final(self).entries() == recorded_entries(old(self).entries(), name@, duration_us),
            names_unique(final(self).entries()),
    {
        proof { use_type_invariant(&*self); }
        let ghost e0 = entry_views(self.stats@);
        let mut v: Vec<(String, TimingStats)> = Vec::new();
        std::mem::swap(&mut v, &mut self.stats);
        let n = v.len();
        let mut i: usize = 0;
        let mut pos: Option<usize> = None;
        while i < n
            invariant_except_break
                pos is None,
            invariant
                n == v@.len(),
                e0 == entry_views(v@),
                i <= n,
                forall|j: int| 0 <= j < i ==> (#[trigger] e0[j]).0 != name@,
            ensures
                match pos {
                    Some(p) => first_position(e0, name@, p as int),
                    None => forall|j: int| 0 <= j < n ==> (#[trigger] e0[j]).0 != name@,
                },
            decreases n - i,
        {
            if str_eq(v[i].0.as_str(), name) {
                assert(e0[i as int].0 == name@);
                pos = Some(i);
                break;
            }
            i = i + 1;
        }
        match pos {
            Some(p) => {
                proof {
                    lemma_position_at(e0, name@, p as int);
                }
                let mut st = v[p].1;
                st.record(duration_us);
                let nm = v[p].0.clone();
                v.set(p, (nm, st));
                proof {
                    let e1 = entry_views(v@);
                    assert(e1 =~= e0.update(p as int, (name@, recorded(e0[p as int].1, duration_us))));
                    assert forall|a: int, b: int| 0 <= a < e1.len() && 0 <= b < e1.len() && a != b implies
                        (#[trigger] e1[a]).0 != (#[trigger] e1[b]).0 by {
                        assert(e1[a].0 == e0[a].0 && e1[b].0 == e0[b].0);
                    };
                }
            },
            None => {
                proof {
                    assert(!exists|c: int| #[trigger] first_position(e0, name@, c));
                }
                let mut st = TimingStats::new();
                st.record(duration_us);
                v.push((to_string(name), st));
                proof {
                    let e1 = entry_views(v@);
                    assert(e1 =~= e0.push((name@, recorded(empty_stats(), duration_us))));
                    assert forall|a: int, b: int| 0 <= a < e1.len() && 0 <= b < e1.len() && a != b implies
                        (#[trigger] e1[a]).0 != (#[trigger] e1[b]).0 by {
                        if a < n && b < n {
                            assert(e1[a] == e0[a] && e1[b] == e0[b]);
                        } else if a < n {
                            assert(e1[a] == e0[a]);
                        } else {
                            assert(e1[b] == e0[b]);
                        }
                    };
                }
            },
        }
        self.stats = v;
    }

    /// Whether one more call of `name` taking `duration_us` microseconds
    /// fits its counters: the precondition of [`Profiler::record`], tested.
    pub fn fits_record(&self, name: &str, duration_us: u64) -> (b: bool)
        ensures
            b == (self.stats_of(name@) matches Some(st) ==> can_record(st, duration_us)),
    {
        let ghost e0 = entry_views(self.stats@);
        let n = self.stats.len();
        let mut i: usize = 0;
        while i < n
            invariant
                n == self.stats@.len(),
                e0 == entry_views(self.stats@),
                e0 == self.entries(),
                i <= n,
                forall|j: int| 0 <= j < i ==> (#[trigger] e0[j]).0 != name@,
            decreases n - i,
        {
            if str_eq(self.stats[i].0.as_str(), name) {
                proof {
                    assert(e0[i as int].0 == name@);
                    assert(first_position(e0, name@, i as int));
                    let c = choose|c: int| #[trigger] first_position(e0, name@, c);
                    assert(c == i as int) by {
                        if c < i { assert(e0[c].0 != name@); }
                        if c > i { assert(e0[i as int].0 != name@); }
                    };
                }
                let st = self.stats[i].1;
                return st.count < u32::MAX && st.total_us <= u64::MAX - duration_us;
            }
            i = i + 1;
        }
        proof {
            assert(!exists|c: int| #[trigger] first_position(e0, name@, c));
        }
        true
    }

    /// Forgets all statistics.
    pub fn reset(&mut self)
        ensures
            final(self).entries() == Seq::<(Seq<char>, TimingStats)>::empty(),
    {
        self.stats = Vec::new();
        assert(entry_views(self.stats@) =~= Seq::<(Seq<char>, TimingStats)>::empty());
    }

    /// The entries ordered by total time, greatest first: the rows of the
    /// profile report.
    pub fn report_entries(&self) -> (r: Vec<(String, TimingStats)>)
        ensures
            entry_views(r@).to_multiset() == self.entries().to_multiset(),
            by_total_desc(entry_views(r@)),
            names_unique(self.entries()),
    {
        proof { use_type_invariant(self); }
        let n = self.stats.len();
        let mut out: Vec<(String, TimingStats)> = Vec::new();
        let ghost e = entry_views(self.stats@);
        let mut k: usize = 0;
        while k < n
            invariant
                n == self.stats@.len(),
                e == entry_views(self.stats@),
                k <= n,
                entry_views(out@).to_multiset() == e.take(k as int).to_multiset(),
                by_total_desc(entry_views(out@)),
            decreases n - k,
        {
            let total = self.stats[k].1.total_us;
            // Stable insertion: after every entry whose total is at least this one.
            let mut p: usize = 0;
            while p < out.len() && out[p].1.total_us >= total
                invariant
                    p <= out@.len(),
                    forall|q: int| 0 <= q < p ==> (#[trigger] out@[q]).1.total_us >= total,
                decreases out@.len() - p,
            {
                p = p + 1;
            }
            let ghost before = out@;
            let item = (self.stats[k].0.clone(), self.stats[k].1);
            out.insert(p, item);
            proof {
                let eb = entry_views(before);
                let ea = entry_views(out@);
                assert(ea =~= eb.insert(p as int, e[k as int]));
                assert(e.take(k + 1) =~= e.take(k as int).push(e[k as int]));
                assert forall|i: int, j: int| 0 <= i < j < ea.len() implies (#[trigger] ea[i]).1.total_us >= (#[trigger] ea[j]).1.total_us by {
                    if j < p {
                        assert(ea[i] == eb[i] && ea[j] == eb[j]);
                    } else if j == p {
                        assert(ea[i] == eb[i]);
                    } else if i < p {
                        assert(ea[i] == eb[i] && ea[j] == eb[j - 1]);
                        if p < eb.len() {
                            assert(eb[p as int].1.total_us < total);
                        }
                    } else if i == p {
                        assert(ea[j] == eb[j - 1]);
                        assert(eb[p as int].1.total_us < total);
                        assert(eb[p as int].1.total_us >= eb[j - 1].1.total_us || j - 1 == p);
                    } else {
                        assert(ea[i] == eb[i - 1] && ea[j] == eb[j - 1]);
                    }
                };
            }
            k = k + 1;
        }
        assert(e.take(n as int) =~= e);
        out
    }
}

} // verus!
