//! Verified RDF graph storage and OWL/RDFS reasoning for cyber security events.

pub mod model;
pub mod index_list;
pub mod store;
pub mod closure;
pub mod hierarchy;
pub mod rdf_store;
pub mod rdfs;
pub mod nodeset;
pub mod text;
pub mod lite;
pub mod dl;
pub mod operator;
pub mod outside;
pub mod api;
pub mod siem;
pub mod rules;
pub mod engine;
pub mod cli;
pub mod interactive;
pub mod observability;
pub mod cyber;
pub mod shacl;
