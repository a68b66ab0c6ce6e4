//! The power limit: the share of the time, in percent, that the engine may
//! spend computing.

use vstd::prelude::*;
use crate::strings::{parse_u32, parse_u32_str};

verus! {

/// The highest power limit, 100 percent.
pub const MAX_POWER_LIMIT: u32 = 100;

/// A requested limit, capped at 100 percent.
pub fn clamp_power_limit(val: u32) -> (r: u32)
    ensures
        r == (if val < 100 { val } else { 100 }),
{
    if val < MAX_POWER_LIMIT { val } else { MAX_POWER_LIMIT }
}

/// The power limit in force: the value of the environment variable, capped
/// at 100, when it is set and parses as a `u32`; else the stored limit.
pub fn effective_power_limit(env_value: Option<&str>, stored: u32) -> (r: u32)
    ensures
        r == (match env_value {
            Some(v) => match parse_u32(v@) {
                Some(p) => if p < 100 { p } else { 100 },
                None => stored as nat,
            },
            None => stored as nat,
        }),
{
    match env_value {
        Some(v) => match parse_u32_str(v) {
            Some(p) => clamp_power_limit(p),
            None => stored,
        },
        None => stored,
    }
}

/// Whether a limit throttles at all: limits of 0 and of 100 or more leave
/// the engine running freely.
pub fn throttles(limit: u32) -> (b: bool)
    ensures
        b == (0 < limit && limit < 100),
{
    limit > 0 && limit < MAX_POWER_LIMIT
}

} // verus!
