//! Optional durations, one per player, as numbers of milliseconds.

use vstd::prelude::*;

use crate::serde::{decimal, read_numeral, read_scaled, write_decimal};

verus! {

/// Writes both durations, if given, in milliseconds.
pub fn serialize(value: Option<[u64; 2]>) -> (r: Option<(String, String)>)
    ensures
        match value {
            None => r is None,
            Some(v) => r matches Some((a, b)) && a@ == decimal(v[0] as nat) && b@ == decimal(v[1] as nat),
        },
{
    match value {
        None => None,
        Some(v) => Some((write_decimal(v[0]), write_decimal(v[1]))),
    }
}

/// Reads two numbers of milliseconds, decimals dropped: `None` when either
/// is no numeral or does not fit.
pub fn deserialize(first: &str, second: &str) -> (r: Option<Option<[u64; 2]>>)
    ensures
        r == match (read_numeral(first@, 0), read_numeral(second@, 0)) {
            (Some(a), Some(b)) => Some(Some([a, b])),
            _ => None,
        },
{
    match (read_scaled(first, 0), read_scaled(second, 0)) {
        (Some(a), Some(b)) => Some(Some([a, b])),
        _ => None,
    }
}

} // verus!
