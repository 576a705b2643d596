use vstd::prelude::*;
use vstd::std_specs::cmp::{PartialOrdIs, PartialOrdSpec};

verus! {

/// The value that `clamp` returns, for a type whose comparisons follow
/// `partial_cmp_spec`: `lower` below the range, `upper` above it, else `value`.
pub open spec fn clamp_spec<T: PartialOrd>(value: T, lower: T, upper: T) -> T {
    if value.is_lt(&lower) {
        lower
    } else if value.is_gt(&upper) {
        upper
    } else {
        value
    }
}

/// Clamps a value between two bounds.
pub fn clamp<T: PartialOrd>(value: T, lower: T, upper: T) -> (r: T)
    ensures
        r == value || r == lower || r == upper,
        T::obeys_partial_cmp_spec() ==> r == clamp_spec(value, lower, upper),
{
    if value < lower {
        lower
    } else if value > upper {
        upper
    } else {
        value
    }
}

} // verus!
