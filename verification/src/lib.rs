use vstd::prelude::*;

pub mod config;
pub mod consensus;
pub mod log;
pub mod peer;
pub mod proto;
pub mod safety;
pub mod snapshot;
pub mod state_machine;
pub mod util;

verus! {
} // verus!
