//! An optional duration as a number of seconds.

use vstd::prelude::*;

use crate::serde::{read_numeral, read_scaled, seconds_text, write_seconds};

verus! {

/// Writes a duration of `value` milliseconds, if any, as seconds.
pub fn serialize(value: Option<u64>) -> (r: Option<String>)
    ensures
        match value {
            None => r is None,
            Some(v) => r matches Some(t) && t@ == seconds_text(v as nat),
        },
{
    match value {
        None => None,
        Some(v) => Some(write_seconds(v)),
    }
}

/// Reads a number of seconds as a present duration of whole milliseconds:
/// `None` when the text is no numeral or the duration does not fit.
pub fn deserialize(text: &str) -> (r: Option<Option<u64>>)
    ensures
        r == match read_numeral(text@, 3) {
            None => None,
            Some(v) => Some(Some(v)),
        },
{
    match read_scaled(text, 3) {
        None => None,
        Some(v) => Some(Some(v)),
    }
}

} // verus!
