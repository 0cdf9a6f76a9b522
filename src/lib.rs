use vstd::prelude::*;

pub mod beam;
pub mod decoder;
pub mod rank;
pub mod text;

verus! {

/// Sum of two unsigned integers.
pub fn add(left: u64, right: u64) -> (r: u64)
    requires
        left + right <= u64::MAX,
    ensures
        r == left + right,
{
    left + right
}

} // verus!
