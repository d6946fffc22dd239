use vstd::prelude::*;

pub mod ast_index;
pub mod ast_index_service;
pub mod git;
pub mod indexer;
pub mod scratchpad;

verus! {

} // verus!
