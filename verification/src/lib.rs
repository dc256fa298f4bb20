//! Facts about program behavior: deriving them, comparing them, packing them
//! and looking them up again.

use vstd::prelude::*;

pub mod analysis;
pub mod authoring;
pub mod behaviors;
pub mod builder;
pub mod c_normalize;
pub mod catalog;
pub mod command;
pub mod derivations;
pub mod digest;
pub mod digits;
pub mod downloads;
pub mod duplication;
pub mod errors;
pub mod external;
pub mod fact_pack;
pub mod facts;
pub mod flow;
pub mod lists;
pub mod normalize;
pub mod ordering;
pub mod paths;
pub mod precedence;
pub mod registry;
pub mod sorting;
pub mod syntax;
pub mod text;

verus! {

} // verus!
