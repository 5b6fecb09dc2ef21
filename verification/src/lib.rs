use vstd::prelude::*;

pub mod stable;
pub mod trait_aliases;
pub mod tree;
pub mod validity;

verus! {

/// The family of options, `A ↦ Option<A>`.
#[derive(Clone, Copy)]
pub struct OptionFamily;

} // verus!
