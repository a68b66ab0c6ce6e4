use bramha::inference::engine::query_complexity_factors;
use bramha::inference::memory_limits::{
    cgroup_memory_max_paths, memory_max_limit, memory_v1_limit, physical_ram_bytes, system_ram_bytes,
};
use bramha::inference::power::{clamp_power_limit, effective_power_limit, throttles};
use bramha::strings::{
    count_words, lines_str, parse_u32_str, parse_u64_str, parse_usize_str, split_str, trim_str,
};

/// The engine's floating-point score over the two factors that the library
/// computes: 0.5, plus 0.2 for a long prompt and 0.2 for a technical one,
/// clamped to `0.1..=1.0`. The score itself lives in the application; what is
/// tested here is the verified factor computation under it.
fn score_from_factors(factors: (bool, bool)) -> f32 {
    let (long, technical) = factors;
    let mut score: f32 = 0.5;
    if long {
        score += 0.2;
    }
    if technical {
        score += 0.2;
    }
    score.clamp(0.1, 1.0)
}

#[test]
fn test_estimate_query_complexity() {
    let simple_factors = query_complexity_factors("hello");
    assert_eq!(simple_factors, (false, false));
    let simple = score_from_factors(simple_factors);
    assert!((0.1..=0.6).contains(&simple));
    let technical_factors = query_complexity_factors(
        "implement a memory-mapped database in rust with safe compilation and error recovery",
    );
    assert!(technical_factors.1);
    let technical = score_from_factors(technical_factors);
    assert!(technical > simple);
}

#[test]
fn complexity_factors_count_words_and_terms() {
    assert_eq!(query_complexity_factors("hello"), (false, false));
    assert_eq!(
        query_complexity_factors("one two three four five six seven eight nine ten eleven twelve thirteen fourteen fifteen"),
        (false, false)
    );
    assert_eq!(
        query_complexity_factors("one two three four five six seven eight nine ten eleven twelve thirteen fourteen fifteen sixteen"),
        (true, false)
    );
    assert_eq!(query_complexity_factors("Rust"), (false, false));
    assert_eq!(query_complexity_factors("a database"), (false, true));
    assert_eq!(query_complexity_factors("errors everywhere"), (false, true));
}

#[test]
fn strings_trim_split_lines() {
    assert_eq!(trim_str("  a b \t\n"), "a b");
    assert_eq!(trim_str("\u{3000}x\u{a0}"), "x");
    assert_eq!(trim_str(" \t "), "");
    assert_eq!(split_str("a::b", ':'), vec!["a", "", "b"]);
    assert_eq!(split_str("", ':'), vec![""]);
    assert_eq!(lines_str("a\r\nb\n\nc\r"), vec!["a", "b", "", "c\r"]);
    assert_eq!(lines_str("x\n"), vec!["x"]);
    assert_eq!(lines_str(""), Vec::<&str>::new());
    assert_eq!(lines_str("\n"), vec![""]);
    assert_eq!(count_words("  hello   world  "), 2);
    assert_eq!(count_words(""), 0);
    assert_eq!(count_words("a\u{2003}b"), 2);
}

#[test]
fn strings_parse_like_std() {
    assert_eq!(parse_u32_str("+42"), Some(42));
    assert_eq!(parse_u32_str("4294967295"), Some(u32::MAX));
    assert_eq!(parse_u32_str("4294967296"), None);
    assert_eq!(parse_u32_str(""), None);
    assert_eq!(parse_u32_str("+"), None);
    assert_eq!(parse_u32_str("-1"), None);
    assert_eq!(parse_u32_str(" 1"), None);
    assert_eq!(parse_u64_str("18446744073709551615"), Some(u64::MAX));
    assert_eq!(parse_u64_str("18446744073709551616"), None);
    assert_eq!(parse_u64_str("99999999999999999999x"), None);
    assert_eq!(parse_usize_str("0012"), Some(12));
    for s in ["7", "+7", "x", "", "300", "1e3"] {
        assert_eq!(parse_u32_str(s), s.parse::<u32>().ok());
    }
}

#[test]
fn cgroup_paths_from_proc_lines() {
    let content = "0::/user.slice/session-1.scope\n1:cpu:/a\r\n::/b \r\n2:x\n";
    assert_eq!(
        cgroup_memory_max_paths(content),
        vec![
            "/sys/fs/cgroup/user.slice/session-1.scope/memory.max".to_string(),
            "/sys/fs/cgroup/b/memory.max".to_string(),
        ]
    );
    assert_eq!(cgroup_memory_max_paths(""), Vec::<String>::new());
    assert_eq!(cgroup_memory_max_paths("0::/\n"), vec!["/sys/fs/cgroup//memory.max".to_string()]);
}

#[test]
fn memory_limit_files() {
    assert_eq!(memory_max_limit("max\n"), None);
    assert_eq!(memory_max_limit("\n"), None);
    assert_eq!(memory_max_limit("0\n"), None);
    assert_eq!(memory_max_limit("1073741824\n"), Some(1073741824));
    assert_eq!(memory_max_limit("12ab"), None);
    assert_eq!(memory_v1_limit("9223372036854771712\n"), None);
    assert_eq!(memory_v1_limit("536870912\n"), Some(536870912));
    assert_eq!(memory_v1_limit("0"), None);
}

#[test]
fn system_ram_takes_the_lowest_limit() {
    assert_eq!(physical_ram_bytes(-1, 4096), 8 * 1024 * 1024 * 1024);
    assert_eq!(physical_ram_bytes(1000, 0), 8 * 1024 * 1024 * 1024);
    assert_eq!(physical_ram_bytes(1000, 4096), 4_096_000);
    assert_eq!(physical_ram_bytes(i64::MAX, 4), u64::MAX);
    let v2 = vec!["max\n".to_string(), "4294967296\n".to_string()];
    assert_eq!(system_ram_bytes(2_000_000, 4096, &v2, Some("8589934592\n"), Some("9223372036854771712\n")), 4294967296);
    assert_eq!(system_ram_bytes(2_000_000, 4096, &Vec::new(), None, None), 8_192_000_000);
    assert_eq!(system_ram_bytes(2_000_000, 4096, &Vec::new(), Some("max"), Some("1000")), 1000);
}

#[test]
fn test_power_limit_set_get() {
    assert_eq!(clamp_power_limit(50), 50);
    assert_eq!(clamp_power_limit(150), 100);
    assert_eq!(effective_power_limit(None, 50), 50);
    assert_eq!(effective_power_limit(Some("70"), 100), 70);
    assert_eq!(effective_power_limit(Some("250"), 100), 100);
    assert_eq!(effective_power_limit(Some("fast"), 40), 40);
    assert!(throttles(50));
    assert!(!throttles(0));
    assert!(!throttles(100));
}
