use vstd::prelude::*;

pub mod cycle;
pub mod primes;
pub mod stackset;

pub use cycle::Graph;
pub use cycle::has_cycle;
pub use stackset::StackSet;
pub use stackset::MAX_KEYS;

verus! {

} // verus!
