//! OWL Lite reasoning: the ontology model, its loader from RDF triples, a
//! completion graph for consistency checking and class classification.

pub mod model;
pub mod tableau;
pub mod loader;
pub mod reasoner;

use vstd::prelude::*;

verus! {

/// Errors of the OWL Lite reasoner.
#[derive(Debug)]
pub enum OwlError {
    LoaderError(String),
    ReasoningError(String),
    ConsistencyError(String),
    UnsupportedFeature(String),
}

impl OwlError {
    /// The text of the error message.
    pub open spec fn message_spec(&self) -> Seq<char> {
        match self {
            OwlError::LoaderError(m) => "Loader error: "@ + m@,
            OwlError::ReasoningError(m) => "Reasoning error: "@ + m@,
            OwlError::ConsistencyError(m) => "Consistency error: "@ + m@,
            OwlError::UnsupportedFeature(m) => "Unsupported feature: "@ + m@,
        }
    }

    /// The error message.
    pub fn to_string(&self) -> (r: String)
        ensures
            r@ == self.message_spec(),
    {
        match self {
            OwlError::LoaderError(m) => crate::text::join("Loader error: ", m.as_str()),
            OwlError::ReasoningError(m) => crate::text::join("Reasoning error: ", m.as_str()),
            OwlError::ConsistencyError(m) => crate::text::join("Consistency error: ", m.as_str()),
            OwlError::UnsupportedFeature(m) => crate::text::join("Unsupported feature: ", m.as_str()),
        }
    }
}

} // verus!
