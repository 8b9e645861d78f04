//! A duration as a number of seconds.

use vstd::prelude::*;

use crate::serde::{read_numeral, read_scaled, seconds_text, write_seconds};

verus! {

/// Writes a duration of `value` milliseconds as seconds.
pub fn serialize(value: u64) -> (r: String)
    ensures
        r@ == seconds_text(value as nat),
{
    write_seconds(value)
}

/// Reads a number of seconds as whole milliseconds, further decimals
/// dropped: `None` when the text is no numeral or the duration does not fit.
pub fn deserialize(text: &str) -> (r: Option<u64>)
    ensures
        r == read_numeral(text@, 3),
{
    read_scaled(text, 3)
}

} // verus!
