use vstd::prelude::*;

verus! {

/// The value a display layer shows for an optional per-dose capacity:
/// the count itself when present, zero when absent.
pub open spec fn opti16_value(s: Option<i16>) -> i16 {
    match s {
        Some(v) => v,
        None => 0i16,
    }
}

/// Unwraps an optional capacity count for display, defaulting to zero.
pub fn opti16_display(s: &Option<i16>) -> (r: i16)
    ensures
        r == opti16_value(*s),
{
    match s {
        Some(v) => *v,
        None => 0,
    }
}

} // verus!
