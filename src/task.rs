use vstd::prelude::*;

pub mod executor;
pub mod keyboard;

verus! {

} // verus!
