use vstd::prelude::*;
use vstd::std_specs::ops::{DivSpec, RemSpec};

verus! {

/// Quotient and remainder of `x` divided by `y`, computed together, for any
/// type with a division and a remainder (on the unsigned integers: `x / y`
/// and `x % y`).
pub fn div_rem<T: core::ops::Div<Output = T> + core::ops::Rem<Output = T> + Copy>(x: T, y: T) -> (r: (T, T))
    requires
        x.div_req(y),
        x.rem_req(y),
    ensures
        T::obeys_div_spec() ==> r.0 == x.div_spec(y),
        T::obeys_rem_spec() ==> r.1 == x.rem_spec(y),
{
    let quot = x / y;
    let rem = x % y;
    (quot, rem)
}

} // verus!
