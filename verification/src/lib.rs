use vstd::prelude::*;

pub mod bindings;
pub mod net;

verus! {

} // verus!
