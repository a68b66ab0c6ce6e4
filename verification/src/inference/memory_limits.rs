//! How much memory the process may use: the physical memory that the system
//! reports, lowered by the cgroup limits that apply to the process.

use vstd::prelude::*;
use crate::strings::{
    lines_seq, lines_str, parse_u64, parse_u64_str, split_seq, split_str, str_eq, to_string, trim,
    trim_str,
};

verus! {

/// The physical memory that `sysconf` reports, `pages` pages of
/// `page_size` bytes (saturating at `u64::MAX`), when both are positive;
/// else 8 GiB.
pub open spec fn physical_ram(pages: i64, page_size: i64) -> nat {
    if pages > 0 && page_size > 0 {
        if pages * page_size > u64::MAX { u64::MAX as nat } else { (pages * page_size) as nat }
    } else {
        8 * 1024 * 1024 * 1024
    }
}

/// The physical memory of the system, from the page count and page size
/// that `sysconf` reports.
pub fn physical_ram_bytes(pages: i64, page_size: i64) -> (r: u64)
    ensures
        r == physical_ram(pages, page_size),
{
    if pages > 0 && page_size > 0 {
        match (pages as u64).checked_mul(page_size as u64) {
            Some(v) => v,
            None => u64::MAX,
        }
    } else {
        8 * 1024 * 1024 * 1024
    }
}

/// The cgroup v2 paths named by the lines of `/proc/self/cgroup`: the third
/// `:`-separated field, trimmed, of each line with at least three fields
/// whose first field is `0` or empty.
pub open spec fn cgroup_v2_dirs(lines: Seq<Seq<char>>) -> Seq<Seq<char>>
    decreases lines.len(),
{
    if lines.len() == 0 {
        Seq::empty()
    } else {
        let prev = cgroup_v2_dirs(lines.drop_last());
        let parts = split_seq(lines.last(), ':');
        if parts.len() >= 3 && (parts[0] == "0"@ || parts[0].len() == 0) {
            prev.push(trim(parts[2]))
        } else {
            prev
        }
    }
}

/// The `memory.max` file of a cgroup v2 path.
pub open spec fn memory_max_path(dir: Seq<char>) -> Seq<char> {
    "/sys/fs/cgroup"@ + dir + "/memory.max"@
}

/// The `memory.max` files to read for the cgroups that the content of
/// `/proc/self/cgroup` lists, in the order of its lines.
pub fn cgroup_memory_max_paths(cgroup: &str) -> (r: Vec<String>)
    ensures
        r@.map_values(|p: String| p@) == cgroup_v2_dirs(lines_seq(cgroup@)).map_values(|d: Seq<char>| memory_max_path(d)),
{
    let lines = lines_str(cgroup);
    let ghost lv = lines@.map_values(|x: &str| x@);
    let mut out: Vec<String> = Vec::new();
    let mut i: usize = 0;
    while i < lines.len()
        invariant
            i <= lines@.len(),
            lv == lines@.map_values(|x: &str| x@),
            out@.map_values(|p: String| p@) == cgroup_v2_dirs(lv.take(i as int)).map_values(|d: Seq<char>| memory_max_path(d)),
        decreases lines@.len() - i,
    {
        let line = lines[i];
        let parts = split_str(line, ':');
        let ghost pv = parts@.map_values(|x: &str| x@);
        let ghost ov = out@.map_values(|p: String| p@);
        proof {
            assert(lv.take(i + 1).drop_last() =~= lv.take(i as int));
            assert(lv.take(i + 1).last() == line@);
            reveal_strlit("0");
        }
        if parts.len() >= 3 && (str_eq(parts[0], "0") || parts[0].unicode_len() == 0) {
            proof {
                assert(pv[0] == parts@[0]@);
                assert(pv[2] == parts@[2]@);
                if parts@[0]@.len() == 0 {
                    assert(pv[0] =~= Seq::<char>::empty());
                }
            }
            let dir = trim_str(parts[2]);
            let mut path = to_string("/sys/fs/cgroup");
            path.append(dir);
            path.append("/memory.max");
            out.push(path);
            assert(out@.map_values(|p: String| p@) =~= ov.push(memory_max_path(trim(pv[2]))));
        } else {
            proof {
                if parts@.len() >= 3 {
                    assert(pv[0] == parts@[0]@);
                    assert(pv[0] != "0"@);
                    assert(pv[0].len() != 0);
                }
            }
        }
        i = i + 1;
    }
    assert(lv.take(lines@.len() as int) =~= lv);
    out
}

/// The limit that a cgroup v2 `memory.max` file sets: its trimmed content
/// when that is not `max`, not empty, and a positive `u64`.
pub open spec fn v2_limit(content: Seq<char>) -> Option<nat> {
    let t = trim(content);
    if t != "max"@ && t.len() > 0 {
        match parse_u64(t) {
            Some(l) => if l > 0 { Some(l) } else { None },
            None => None,
        }
    } else {
        None
    }
}

/// The limit that the cgroup v1 `memory.limit_in_bytes` file sets: its
/// trimmed content as a `u64`, when positive and below 9·10¹⁸ (values near
/// `i64::MAX` mean no limit).
pub open spec fn v1_limit(content: Seq<char>) -> Option<nat> {
    match parse_u64(trim(content)) {
        Some(l) => if 0 < l && l < 9000000000000000000 { Some(l) } else { None },
        None => None,
    }
}

/// `ram` lowered to `limit` when there is one below it.
pub open spec fn min_limit(ram: nat, limit: Option<nat>) -> nat {
    match limit {
        Some(l) => if l < ram { l } else { ram },
        None => ram,
    }
}

/// `ram` lowered by the limits of the first `n` cgroup v2 `memory.max`
/// contents.
pub open spec fn apply_v2_limits(ram: nat, contents: Seq<Seq<char>>, n: nat) -> nat
    decreases n,
{
    if n == 0 {
        ram
    } else {
        min_limit(apply_v2_limits(ram, contents, (n - 1) as nat), v2_limit(contents[n - 1]))
    }
}

/// The memory the process may use: the physical memory, lowered by each
/// readable cgroup v2 `memory.max` of its cgroups, by the root
/// `memory.max`, and by the cgroup v1 limit.
pub open spec fn spec_system_ram(pages: i64, page_size: i64, v2_contents: Seq<Seq<char>>, root_max: Option<Seq<char>>, v1: Option<Seq<char>>) -> nat {
    let r1 = apply_v2_limits(physical_ram(pages, page_size), v2_contents, v2_contents.len());
    let r2 = match root_max {
        Some(c) => min_limit(r1, v2_limit(c)),
        None => r1,
    };
    match v1 {
        Some(c) => min_limit(r2, v1_limit(c)),
        None => r2,
    }
}

proof fn lemma_v2_limits_lower(ram: nat, contents: Seq<Seq<char>>, n: nat)
    ensures
        apply_v2_limits(ram, contents, n) <= ram,
    decreases n,
{
    if n > 0 {
        lemma_v2_limits_lower(ram, contents, (n - 1) as nat);
    }
}

/// The limits only ever lower the memory: the process never gets more than
/// the physical memory, nor more than any limit that applies.
pub proof fn lemma_system_ram_bounds(pages: i64, page_size: i64, v2_contents: Seq<Seq<char>>, root_max: Option<Seq<char>>, v1: Option<Seq<char>>)
    ensures
        spec_system_ram(pages, page_size, v2_contents, root_max, v1) <= physical_ram(pages, page_size),
        match root_max {
            Some(c) => match v2_limit(c) {
                Some(l) => spec_system_ram(pages, page_size, v2_contents, root_max, v1) <= l,
                None => true,
            },
            None => true,
        },
        match v1 {
            Some(c) => match v1_limit(c) {
                Some(l) => spec_system_ram(pages, page_size, v2_contents, root_max, v1) <= l,
                None => true,
            },
            None => true,
        },
{
    lemma_v2_limits_lower(physical_ram(pages, page_size), v2_contents, v2_contents.len());
}

/// The limit of a cgroup v2 `memory.max` content.
pub fn memory_max_limit(content: &str) -> (r: Option<u64>)
    ensures
        match r {
            Some(l) => v2_limit(content@) == Some(l as nat),
            None => v2_limit(content@) is None,
        },
{
    let t = trim_str(content);
    if !str_eq(t, "max") && t.unicode_len() > 0 {
        match parse_u64_str(t) {
            Some(l) => if l > 0 { Some(l) } else { None },
            None => None,
        }
    } else {
        None
    }
}

/// The limit of a cgroup v1 `memory.limit_in_bytes` content.
pub fn memory_v1_limit(content: &str) -> (r: Option<u64>)
    ensures
        match r {
            Some(l) => v1_limit(content@) == Some(l as nat),
            None => v1_limit(content@) is None,
        },
{
    match parse_u64_str(trim_str(content)) {
        Some(l) => if 0 < l && l < 9000000000000000000 { Some(l) } else { None },
        None => None,
    }
}

fn lower_to(ram: u64, limit: Option<u64>) -> (r: u64)
    ensures
        r == min_limit(ram as nat, match limit { Some(l) => Some(l as nat), None => None }),
{
    match limit {
        Some(l) => if l < ram { l } else { ram },
        None => ram,
    }
}

/// The memory the process may use, from the page count and page size that
/// `sysconf` reports and the contents of the cgroup files that could be
/// read: the `memory.max` of each cgroup v2 path, the root `memory.max`, and
/// the cgroup v1 `memory.limit_in_bytes`.
pub fn system_ram_bytes(pages: i64, page_size: i64, v2_contents: &Vec<String>, root_max: Option<&str>, v1: Option<&str>) -> (r: u64)
    ensures
        r == spec_system_ram(pages, page_size, v2_contents@.map_values(|c: String| c@),
            match root_max { Some(c) => Some(c@), None => None },
            match v1 { Some(c) => Some(c@), None => None }),
{
    let ghost cv = v2_contents@.map_values(|c: String| c@);
    let mut ram = physical_ram_bytes(pages, page_size);
    let mut i: usize = 0;
    while i < v2_contents.len()
        invariant
            i <= v2_contents@.len(),
            cv == v2_contents@.map_values(|c: String| c@),
            ram == apply_v2_limits(physical_ram(pages, page_size), cv, i as nat),
        decreases v2_contents@.len() - i,
    {
        ram = lower_to(ram, memory_max_limit(v2_contents[i].as_str()));
        assert(cv[i as int] == v2_contents@[i as int]@);
        i = i + 1;
    }
    match root_max {
        Some(c) => { ram = lower_to(ram, memory_max_limit(c)); },
        None => {},
    }
    match v1 {
        Some(c) => { ram = lower_to(ram, memory_v1_limit(c)); },
        None => {},
    }
    ram
}

} // verus!
