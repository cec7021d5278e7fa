use vstd::prelude::*;

pub mod config;
pub mod model;

verus! {

} // verus!
