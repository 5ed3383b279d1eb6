//! Feature graphs of a manifest's dependencies: enabling and disabling
//! features along their implications, and a pass that prunes the features
//! a build does not need.
use vstd::prelude::*;

pub mod graph;
pub mod crates;
pub mod prune;
pub mod manifest;
pub mod laws;
pub mod selector;
pub mod ignore;
pub mod document;

verus! {

} // verus!
