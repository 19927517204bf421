//! IRIs of the RDF and RDFS vocabulary.

use vstd::prelude::*;
use super::Iri;

verus! {

pub const RDFS_SUBCLASS_OF: &'static str = "http://www.w3.org/2000/01/rdf-schema#subClassOf";
pub const RDFS_SUBPROPERTY_OF: &'static str = "http://www.w3.org/2000/01/rdf-schema#subPropertyOf";
pub const RDFS_DOMAIN: &'static str = "http://www.w3.org/2000/01/rdf-schema#domain";
pub const RDFS_RANGE: &'static str = "http://www.w3.org/2000/01/rdf-schema#range";
pub const RDF_TYPE: &'static str = "http://www.w3.org/1999/02/22-rdf-syntax-ns#type";
pub const RDFS_CLASS: &'static str = "http://www.w3.org/2000/01/rdf-schema#Class";
pub const RDF_PROPERTY: &'static str = "http://www.w3.org/1999/02/22-rdf-syntax-ns#Property";

pub open spec fn subclass_of_iri() -> Seq<char> {
    "http://www.w3.org/2000/01/rdf-schema#subClassOf"@
}

pub open spec fn subproperty_of_iri() -> Seq<char> {
    "http://www.w3.org/2000/01/rdf-schema#subPropertyOf"@
}

pub open spec fn domain_iri() -> Seq<char> {
    "http://www.w3.org/2000/01/rdf-schema#domain"@
}

pub open spec fn range_iri() -> Seq<char> {
    "http://www.w3.org/2000/01/rdf-schema#range"@
}

pub open spec fn type_iri() -> Seq<char> {
    "http://www.w3.org/1999/02/22-rdf-syntax-ns#type"@
}

/// rdfs:subClassOf
pub fn rdfs_subclass_of() -> (r: Iri)
    ensures
        r.0@ == subclass_of_iri(),
{
    Iri::new("http://www.w3.org/2000/01/rdf-schema#subClassOf".to_string())
}

/// rdfs:subPropertyOf
pub fn rdfs_subproperty_of() -> (r: Iri)
    ensures
        r.0@ == subproperty_of_iri(),
{
    Iri::new("http://www.w3.org/2000/01/rdf-schema#subPropertyOf".to_string())
}

/// rdfs:domain
pub fn rdfs_domain() -> (r: Iri)
    ensures
        r.0@ == domain_iri(),
{
    Iri::new("http://www.w3.org/2000/01/rdf-schema#domain".to_string())
}

/// rdfs:range
pub fn rdfs_range() -> (r: Iri)
    ensures
        r.0@ == range_iri(),
{
    Iri::new("http://www.w3.org/2000/01/rdf-schema#range".to_string())
}

/// rdf:type
pub fn rdf_type() -> (r: Iri)
    ensures
        r.0@ == type_iri(),
{
    Iri::new("http://www.w3.org/1999/02/22-rdf-syntax-ns#type".to_string())
}

} // verus!
