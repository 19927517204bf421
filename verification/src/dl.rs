//! OWL DL reasoning: class expressions built with intersections, unions,
//! complements, restrictions and cardinalities, instance checking over the
//! stated facts, and a completion graph that propagates them.

pub mod model;
pub mod tableau;
pub mod reasoner;
pub mod loader;

use vstd::prelude::*;

verus! {

/// Errors of the OWL DL reasoner.
#[derive(Debug)]
pub enum OwlDlError {
    LoaderError(String),
    ReasoningError(String),
    ConsistencyError(String),
    UnsupportedFeature(String),
}

} // verus!
