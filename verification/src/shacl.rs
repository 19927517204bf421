//! SHACL shapes: reading them from a store, checking data against them and
//! reporting what was found.

pub mod loader;
pub mod validator;


use vstd::prelude::*;

verus! {

/// What can go wrong while loading shapes, validating or reporting.
#[derive(Debug)]
pub enum ShaclError {
    LoaderError(String),
    ValidationError(String),
    ReportError(String),
    UnsupportedFeature(String),
}

impl ShaclError {
    /// The message of the error, as it is displayed.
    pub fn to_string(&self) -> (r: String)
        ensures
            r@ == shacl_error_text(*self),
    {
        match self {
            ShaclError::LoaderError(m) => crate::text::join("Loader error: ", m.as_str()),
            ShaclError::ValidationError(m) => crate::text::join("Validation error: ", m.as_str()),
            ShaclError::ReportError(m) => crate::text::join("Report error: ", m.as_str()),
            ShaclError::UnsupportedFeature(m) => crate::text::join("Unsupported feature: ", m.as_str()),
        }
    }
}

/// The displayed text of an error.
pub open spec fn shacl_error_text(e: ShaclError) -> Seq<char> {
    match e {
        ShaclError::LoaderError(m) => "Loader error: "@ + m@,
        ShaclError::ValidationError(m) => "Validation error: "@ + m@,
        ShaclError::ReportError(m) => "Report error: "@ + m@,
        ShaclError::UnsupportedFeature(m) => "Unsupported feature: "@ + m@,
    }
}

} // verus!
