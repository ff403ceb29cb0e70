use vstd::prelude::*;

verus! {

/// The type of the values that are sorted and displayed.
pub type Num = u32;

} // verus!
