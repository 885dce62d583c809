use vstd::prelude::*;

pub mod args;
pub mod atsp;
pub mod deltas;
pub mod errors;
pub mod explorers;
pub mod initializers;
pub mod operation;
pub mod search;
pub mod solution;
pub mod utils;

verus! {

/// Largest number of nodes the packed move encoding can address:
/// each index field is 10 bits wide.
pub const MAX_NODES: u16 = 1023;

} // verus!
