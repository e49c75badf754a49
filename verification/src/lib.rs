use vstd::prelude::*;

pub mod ast;
pub mod cfg;
pub mod tip_parser;

verus! {

} // verus!
