//! User-facing texts of the duration errors.
use vstd::prelude::*;
use vstd::string::*;

use crate::text::push_char;

verus! {

/// Message for a duration that mixes a unitless value with unit-based values.
pub const MIXED_DURATION_UNITS: &'static str = "Cannot mix unitless durations and unit-based durations.";

/// The text of [`duplicate_duration_unit`].
pub open spec fn duplicate_unit_text(unit: char) -> Seq<char> {
    "Duration unit '"@ + seq![unit] + "' was specified more than once."@
}

/// The text of [`unsupported_duration_unit`].
pub open spec fn unsupported_unit_text(unit: Seq<char>) -> Seq<char> {
    "Unsupported duration unit '"@ + unit + "'. Supported units are: s, m, h, d."@
}

/// Message for a duration unit that occurs more than once.
pub fn duplicate_duration_unit(unit: char) -> (message: String)
    ensures
        message@ == duplicate_unit_text(unit),
{
    let mut message = "Duration unit '".to_owned();
    push_char(&mut message, unit);
    message.append("' was specified more than once.");
    message
}

/// Message for a duration unit outside `s`, `m`, `h` and `d`.
pub fn unsupported_duration_unit(unit: &str) -> (message: String)
    ensures
        message@ == unsupported_unit_text(unit@),
{
    let mut message = "Unsupported duration unit '".to_owned();
    message.append(unit);
    message.append("'. Supported units are: s, m, h, d.");
    message
}

} // verus!
