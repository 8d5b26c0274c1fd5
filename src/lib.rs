use vstd::prelude::*;

pub mod rule;
pub mod helpers;
pub mod engine;
pub mod builder;

verus! {

/// The usual upper bound on the repeated leaves of the example grammars.
pub const DEFAULT_ENGINE_TYPICAL_MAX: usize = 100;

} // verus!
