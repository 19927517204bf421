//! Reading an OWL Lite ontology from RDF triples.

use vstd::prelude::*;
use crate::closure::{GraphNode, node_views, distinct};
use crate::model::{Triple, TripleView, triples_view};
use crate::nodeset::{seq_insert, insert_node, lemma_seq_insert};
use crate::rdf_store::RdfStore;
use crate::rdfs::vocabulary::{type_iri, subclass_of_iri, domain_iri, range_iri};
use crate::text::{has_prefix, starts_with};
use super::model::{Ontology, OntologyV, OwlIri, Class, ClassV, Property, PropertyV, Individual, Axiom, AxiomV, add_axiom_spec};
use super::OwlError;

verus! {

pub open spec fn owl_ns() -> Seq<char> {
    "http://www.w3.org/2002/07/owl#"@
}

pub open spec fn owl_class_iri() -> Seq<char> {
    "http://www.w3.org/2002/07/owl#Class"@
}

pub open spec fn owl_object_property_iri() -> Seq<char> {
    "http://www.w3.org/2002/07/owl#ObjectProperty"@
}

pub open spec fn owl_datatype_property_iri() -> Seq<char> {
    "http://www.w3.org/2002/07/owl#DatatypeProperty"@
}

pub open spec fn owl_named_individual_iri() -> Seq<char> {
    "http://www.w3.org/2002/07/owl#NamedIndividual"@
}

pub open spec fn owl_subclass_of_iri() -> Seq<char> {
    "http://www.w3.org/2002/07/owl#subClassOf"@
}

pub open spec fn owl_equivalent_class_iri() -> Seq<char> {
    "http://www.w3.org/2002/07/owl#equivalentClass"@
}

pub open spec fn owl_functional_property_iri() -> Seq<char> {
    "http://www.w3.org/2002/07/owl#FunctionalProperty"@
}

pub open spec fn owl_inverse_functional_property_iri() -> Seq<char> {
    "http://www.w3.org/2002/07/owl#InverseFunctionalProperty"@
}

pub open spec fn owl_transitive_property_iri() -> Seq<char> {
    "http://www.w3.org/2002/07/owl#TransitiveProperty"@
}

pub open spec fn owl_symmetric_property_iri() -> Seq<char> {
    "http://www.w3.org/2002/07/owl#SymmetricProperty"@
}

/// The last property of `ps` with IRI `iri`.
pub open spec fn find_property_spec(ps: Seq<PropertyV>, iri: Seq<char>) -> Option<PropertyV>
    decreases ps.len(),
{
    if ps.len() == 0 {
        None
    } else if ps.last().iri() == iri {
        Some(ps.last())
    } else {
        find_property_spec(ps.drop_last(), iri)
    }
}

/// Add the statement built from a property found by IRI, if one was found.
pub open spec fn add_if_found(o: OntologyV, found: Option<PropertyV>, make: spec_fn(PropertyV) -> AxiomV) -> OntologyV {
    match found {
        Some(p) => add_axiom_spec(o, make(p)),
        None => o,
    }
}

/// Add the statement built from a property found by IRI, if one was found
/// and it is an object property.
pub open spec fn add_if_object(o: OntologyV, found: Option<PropertyV>, make: spec_fn(PropertyV) -> AxiomV) -> OntologyV {
    match found {
        Some(p) => if p is Object { add_axiom_spec(o, make(p)) } else { o },
        None => o,
    }
}

/// What reading one triple does to an ontology.
pub open spec fn load_step(o: OntologyV, t: TripleView) -> OntologyV {
    let found_subject = find_property_spec(o.properties, t.subject);
    if t.predicate == type_iri() {
        if t.object == owl_class_iri() {
            OntologyV { iri: o.iri, axioms: o.axioms, classes: seq_insert(o.classes, ClassV::Named(t.subject)), properties: o.properties, individuals: o.individuals }
        } else if t.object == owl_object_property_iri() {
            OntologyV { iri: o.iri, axioms: o.axioms, classes: o.classes, properties: seq_insert(o.properties, PropertyV::Object(t.subject)), individuals: o.individuals }
        } else if t.object == owl_datatype_property_iri() {
            OntologyV { iri: o.iri, axioms: o.axioms, classes: o.classes, properties: seq_insert(o.properties, PropertyV::Data(t.subject)), individuals: o.individuals }
        } else if t.object == owl_named_individual_iri() {
            OntologyV { iri: o.iri, axioms: o.axioms, classes: o.classes, properties: o.properties, individuals: seq_insert(o.individuals, t.subject) }
        } else if t.object == owl_functional_property_iri() {
            add_if_found(o, found_subject, |p: PropertyV| AxiomV::FunctionalProperty(p))
        } else if t.object == owl_inverse_functional_property_iri() {
            add_if_found(o, found_subject, |p: PropertyV| AxiomV::InverseFunctionalProperty(p))
        } else if t.object == owl_transitive_property_iri() {
            add_if_found(o, found_subject, |p: PropertyV| AxiomV::TransitiveProperty(p))
        } else if t.object == owl_symmetric_property_iri() {
            add_if_found(o, found_subject, |p: PropertyV| AxiomV::SymmetricProperty(p))
        } else if !has_prefix(t.object, owl_ns()) {
            add_axiom_spec(o, AxiomV::ClassAssertion(ClassV::Named(t.object), t.subject))
        } else {
            o
        }
    } else if t.predicate == subclass_of_iri() || t.predicate == owl_subclass_of_iri() {
        add_axiom_spec(o, AxiomV::SubClassOf(ClassV::Named(t.subject), ClassV::Named(t.object)))
    } else if t.predicate == owl_equivalent_class_iri() {
        add_axiom_spec(
            add_axiom_spec(o, AxiomV::SubClassOf(ClassV::Named(t.subject), ClassV::Named(t.object))),
            AxiomV::SubClassOf(ClassV::Named(t.object), ClassV::Named(t.subject)),
        )
    } else if t.predicate == domain_iri() {
        add_if_object(o, found_subject, |p: PropertyV| AxiomV::ObjectPropertyDomain(p, ClassV::Named(t.object)))
    } else if t.predicate == range_iri() {
        add_if_object(o, found_subject, |p: PropertyV| AxiomV::ObjectPropertyRange(p, ClassV::Named(t.object)))
    } else {
        add_if_object(o, find_property_spec(o.properties, t.predicate), |p: PropertyV| AxiomV::ObjectPropertyAssertion(p, t.subject, t.object))
    }
}

/// The ontology read from a sequence of triples, in order.
pub open spec fn load_spec(ts: Seq<TripleView>) -> OntologyV
    decreases ts.len(),
{
    if ts.len() == 0 {
        OntologyV { iri: None, axioms: Seq::empty(), classes: Seq::empty(), properties: Seq::empty(), individuals: Seq::empty() }
    } else {
        load_step(load_spec(ts.drop_last()), ts.last())
    }
}

/// Reading a triple keeps every statement read before, in its place.
proof fn lemma_step_keeps_axioms(o: OntologyV, t: TripleView)
    ensures
        load_step(o, t).axioms.len() >= o.axioms.len(),
        forall|i: int| 0 <= i < o.axioms.len() ==> #[trigger] load_step(o, t).axioms[i] == o.axioms[i],
{
}

/// Loading triples keeps each statement that a prefix of them gave.
proof fn lemma_load_keeps(ts: Seq<TripleView>, a: AxiomV)
    requires
        ts.len() > 0,
        load_spec(ts.drop_last()).axioms.contains(a),
    ensures
        load_spec(ts).axioms.contains(a),
{
    let o = load_spec(ts.drop_last());
    lemma_step_keeps_axioms(o, ts.last());
    let i = choose|i: int| 0 <= i < o.axioms.len() && o.axioms[i] == a;
    assert(load_step(o, ts.last()).axioms[i] == a);
}

/// Every OWL vocabulary term the loader reads types from lies in the OWL
/// namespace.
proof fn lemma_owl_terms_in_namespace()
    ensures
        has_prefix(owl_class_iri(), owl_ns()),
        has_prefix(owl_object_property_iri(), owl_ns()),
        has_prefix(owl_datatype_property_iri(), owl_ns()),
        has_prefix(owl_named_individual_iri(), owl_ns()),
        has_prefix(owl_functional_property_iri(), owl_ns()),
        has_prefix(owl_inverse_functional_property_iri(), owl_ns()),
        has_prefix(owl_transitive_property_iri(), owl_ns()),
        has_prefix(owl_symmetric_property_iri(), owl_ns()),
{
        reveal_strlit("http://www.w3.org/2002/07/owl#");
        reveal_strlit("http://www.w3.org/2002/07/owl#Class");
        reveal_strlit("http://www.w3.org/2002/07/owl#ObjectProperty");
        reveal_strlit("http://www.w3.org/2002/07/owl#DatatypeProperty");
        reveal_strlit("http://www.w3.org/2002/07/owl#NamedIndividual");
        reveal_strlit("http://www.w3.org/2002/07/owl#FunctionalProperty");
        reveal_strlit("http://www.w3.org/2002/07/owl#InverseFunctionalProperty");
        reveal_strlit("http://www.w3.org/2002/07/owl#TransitiveProperty");
        reveal_strlit("http://www.w3.org/2002/07/owl#SymmetricProperty");
        assert(owl_class_iri().subrange(0, 30) =~= owl_ns());
        assert(owl_object_property_iri().subrange(0, 30) =~= owl_ns());
        assert(owl_datatype_property_iri().subrange(0, 30) =~= owl_ns());
        assert(owl_named_individual_iri().subrange(0, 30) =~= owl_ns());
        assert(owl_functional_property_iri().subrange(0, 30) =~= owl_ns());
        assert(owl_inverse_functional_property_iri().subrange(0, 30) =~= owl_ns());
        assert(owl_transitive_property_iri().subrange(0, 30) =~= owl_ns());
        assert(owl_symmetric_property_iri().subrange(0, 30) =~= owl_ns());
}

/// An rdf:type triple whose class lies outside the OWL namespace states
/// that its subject is an instance of that class: whatever other triples
/// surround it, the loaded ontology holds ClassAssertion(class, subject).
pub proof fn law_type_triple_asserts(ts: Seq<TripleView>, k: int)
    requires
        0 <= k < ts.len(),
        ts[k].predicate == type_iri(),
        !has_prefix(ts[k].object, owl_ns()),
    ensures
        load_spec(ts).axioms.contains(AxiomV::ClassAssertion(ClassV::Named(ts[k].object), ts[k].subject)),
    decreases ts.len(),
{
    let a = AxiomV::ClassAssertion(ClassV::Named(ts[k].object), ts[k].subject);
    if k == ts.len() - 1 {
        lemma_owl_terms_in_namespace();
        let o = load_spec(ts.drop_last());
        let r = load_spec(ts);
        assert(r.axioms == o.axioms.push(a));
        assert(r.axioms[o.axioms.len() as int] == a);
    } else {
        let p = ts.drop_last();
        assert(p[k] == ts[k]);
        law_type_triple_asserts(p, k);
        lemma_load_keeps(ts, a);
    }
}

/// An rdfs:subClassOf or owl:subClassOf triple from `a` to `b` states `a`
/// a subclass of `b`, in that direction: whatever other triples surround
/// it, the loaded ontology holds SubClassOf(a, b).
pub proof fn law_subclass_triple(ts: Seq<TripleView>, k: int)
    requires
        0 <= k < ts.len(),
        ts[k].predicate == subclass_of_iri() || ts[k].predicate == owl_subclass_of_iri(),
    ensures
        load_spec(ts).axioms.contains(AxiomV::SubClassOf(ClassV::Named(ts[k].subject), ClassV::Named(ts[k].object))),
    decreases ts.len(),
{
    let a = AxiomV::SubClassOf(ClassV::Named(ts[k].subject), ClassV::Named(ts[k].object));
    if k == ts.len() - 1 {
        reveal_strlit("http://www.w3.org/1999/02/22-rdf-syntax-ns#type");
        reveal_strlit("http://www.w3.org/2000/01/rdf-schema#subClassOf");
        reveal_strlit("http://www.w3.org/2002/07/owl#subClassOf");
        assert(type_iri()[18] != subclass_of_iri()[18]);
        assert(type_iri().len() != owl_subclass_of_iri().len());
        let o = load_spec(ts.drop_last());
        let r = load_spec(ts);
        assert(r.axioms == o.axioms.push(a));
        assert(r.axioms[o.axioms.len() as int] == a);
    } else {
        let p = ts.drop_last();
        assert(p[k] == ts[k]);
        law_subclass_triple(p, k);
        lemma_load_keeps(ts, a);
    }
}

/// An owl:equivalentClass triple between `a` and `b` states each class a
/// subclass of the other: whatever other triples surround it, the loaded
/// ontology holds both SubClassOf(a, b) and SubClassOf(b, a).
pub proof fn law_equivalent_class_both_ways(ts: Seq<TripleView>, k: int)
    requires
        0 <= k < ts.len(),
        ts[k].predicate == owl_equivalent_class_iri(),
    ensures
        load_spec(ts).axioms.contains(AxiomV::SubClassOf(ClassV::Named(ts[k].subject), ClassV::Named(ts[k].object))),
        load_spec(ts).axioms.contains(AxiomV::SubClassOf(ClassV::Named(ts[k].object), ClassV::Named(ts[k].subject))),
    decreases ts.len(),
{
    let a = AxiomV::SubClassOf(ClassV::Named(ts[k].subject), ClassV::Named(ts[k].object));
    let b = AxiomV::SubClassOf(ClassV::Named(ts[k].object), ClassV::Named(ts[k].subject));
    if k == ts.len() - 1 {
        reveal_strlit("http://www.w3.org/2002/07/owl#equivalentClass");
        reveal_strlit("http://www.w3.org/1999/02/22-rdf-syntax-ns#type");
        reveal_strlit("http://www.w3.org/2000/01/rdf-schema#subClassOf");
        reveal_strlit("http://www.w3.org/2002/07/owl#subClassOf");
        let t = ts.last();
        assert(t.predicate.len() != type_iri().len());
        assert(t.predicate.len() != subclass_of_iri().len());
        assert(t.predicate.len() != owl_subclass_of_iri().len());
        let o = load_spec(ts.drop_last());
        let r = load_spec(ts);
        assert(r.axioms == o.axioms.push(a).push(b));
        assert(r.axioms[o.axioms.len() as int] == a);
        assert(r.axioms[o.axioms.len() + 1int] == b);
    } else {
        let p = ts.drop_last();
        assert(p[k] == ts[k]);
        law_equivalent_class_both_ways(p, k);
        lemma_load_keeps(ts, a);
        lemma_load_keeps(ts, b);
    }
}

/// Reads an ontology from a store.
pub trait OntologyLoader {
    fn load_from_store(&self, store: &RdfStore) -> Result<Ontology, OwlError>;
}

/// The IRIs the loader compares against.
struct Vocab {
    rdf_type: String,
    rdfs_subclass_of: String,
    rdfs_domain: String,
    rdfs_range: String,
    owl_class: String,
    owl_object_property: String,
    owl_datatype_property: String,
    owl_named_individual: String,
    owl_subclass_of: String,
    owl_equivalent_class: String,
    owl_functional_property: String,
    owl_inverse_functional_property: String,
    owl_transitive_property: String,
    owl_symmetric_property: String,
}

impl Vocab {
    spec fn ok(&self) -> bool {
        &&& self.rdf_type@ == type_iri()
        &&& self.rdfs_subclass_of@ == subclass_of_iri()
        &&& self.rdfs_domain@ == domain_iri()
        &&& self.rdfs_range@ == range_iri()
        &&& self.owl_class@ == owl_class_iri()
        &&& self.owl_object_property@ == owl_object_property_iri()
        &&& self.owl_datatype_property@ == owl_datatype_property_iri()
        &&& self.owl_named_individual@ == owl_named_individual_iri()
        &&& self.owl_subclass_of@ == owl_subclass_of_iri()
        &&& self.owl_equivalent_class@ == owl_equivalent_class_iri()
        &&& self.owl_functional_property@ == owl_functional_property_iri()
        &&& self.owl_inverse_functional_property@ == owl_inverse_functional_property_iri()
        &&& self.owl_transitive_property@ == owl_transitive_property_iri()
        &&& self.owl_symmetric_property@ == owl_symmetric_property_iri()
    }

    fn new() -> (r: Self)
        ensures
            r.ok(),
    {
        Vocab {
            rdf_type: "http://www.w3.org/1999/02/22-rdf-syntax-ns#type".to_string(),
            rdfs_subclass_of: "http://www.w3.org/2000/01/rdf-schema#subClassOf".to_string(),
            rdfs_domain: "http://www.w3.org/2000/01/rdf-schema#domain".to_string(),
            rdfs_range: "http://www.w3.org/2000/01/rdf-schema#range".to_string(),
            owl_class: "http://www.w3.org/2002/07/owl#Class".to_string(),
            owl_object_property: "http://www.w3.org/2002/07/owl#ObjectProperty".to_string(),
            owl_datatype_property: "http://www.w3.org/2002/07/owl#DatatypeProperty".to_string(),
            owl_named_individual: "http://www.w3.org/2002/07/owl#NamedIndividual".to_string(),
            owl_subclass_of: "http://www.w3.org/2002/07/owl#subClassOf".to_string(),
            owl_equivalent_class: "http://www.w3.org/2002/07/owl#equivalentClass".to_string(),
            owl_functional_property: "http://www.w3.org/2002/07/owl#FunctionalProperty".to_string(),
            owl_inverse_functional_property: "http://www.w3.org/2002/07/owl#InverseFunctionalProperty".to_string(),
            owl_transitive_property: "http://www.w3.org/2002/07/owl#TransitiveProperty".to_string(),
            owl_symmetric_property: "http://www.w3.org/2002/07/owl#SymmetricProperty".to_string(),
        }
    }
}

/// Default OWL ontology loader.
#[derive(Debug)]
pub struct DefaultOntologyLoader;

impl OntologyLoader for DefaultOntologyLoader {
    /// Read every triple of the store in order into an empty ontology.
    fn load_from_store(&self, store: &RdfStore) -> (r: Result<Ontology, OwlError>)
        ensures
            r is Ok,
            r->Ok_0.wf(),
            r->Ok_0.view_of() == load_spec(store.view_triples()),
    {
        let vocab = Vocab::new();
        let mut ontology = Ontology::new();
        let triples = store.all_triples();
        let ghost ts = store.view_triples();
        let mut i: usize = 0;
        while i < triples.len()
            invariant
                i <= triples@.len(),
                ts == triples_view(triples@),
                vocab.ok(),
                ontology.wf(),
                ontology.view_of() == load_spec(ts.take(i as int)),
            decreases triples.len() - i,
        {
            proof {
                assert(ts.take(i + 1).drop_last() =~= ts.take(i as int));
                assert(ts.take(i + 1).last() == triples@[i as int]@);
            }
            self.load_triple(&mut ontology, &triples[i], &vocab);
            i += 1;
        }
        proof {
            assert(ts.take(ts.len() as int) =~= ts);
        }
        Ok(ontology)
    }
}

impl DefaultOntologyLoader {
    /// The last property of the ontology with IRI `iri`.
    pub fn find_property_by_iri(&self, ontology: &Ontology, iri: &str) -> (r: Option<Property>)
        ensures
            match r {
                Some(p) => find_property_spec(ontology.view_of().properties, iri@) == Some(p.view_of()),
                None => find_property_spec(ontology.view_of().properties, iri@) is None,
            },
    {
        let props = &ontology.properties;
        let key = iri.to_string();
        let ghost pv = node_views(props@);
        proof {
            assert(pv.take(pv.len() as int) =~= pv);
        }
        let mut i: usize = props.len();
        while i > 0
            invariant
                i <= props@.len(),
                pv == node_views(props@),
                pv == ontology.view_of().properties,
                key@ == iri@,
                find_property_spec(pv, iri@) == find_property_spec(pv.take(i as int), iri@),
            decreases i,
        {
            i -= 1;
            let ghost t1 = pv.take(i + 1);
            proof {
                assert(t1.drop_last() =~= pv.take(i as int));
                assert(t1.last() == props@[i as int].view_of());
            }
            let matches = match &props[i] {
                Property::Object(p_iri) => p_iri.0 == key,
                Property::Data(p_iri) => p_iri.0 == key,
            };
            if matches {
                let found = props[i].clone();
                proof {
                    assert(t1.last().iri() == iri@);
                    assert(find_property_spec(t1, iri@) == Some(t1.last()));
                    assert(found.view_of() == props@[i as int].view_of());
                    assert(ontology.view_of().properties == pv);
                }
                return Some(found);
            }
        }
        proof {
            assert(pv.take(0) =~= Seq::<PropertyV>::empty());
        }
        None
    }

    /// Read one triple into the ontology.
    fn load_triple(&self, ontology: &mut Ontology, t: &Triple, v: &Vocab)
        requires
            v.ok(),
            old(ontology).wf(),
        ensures
            final(ontology).wf(),
            final(ontology).view_of() == load_step(old(ontology).view_of(), t@),
    {
        let ghost o = ontology.view_of();
        let ghost tv = t@;
        if t.predicate == v.rdf_type {
            if t.object == v.owl_class {
                let ghost c0 = node_views(ontology.classes@);
                insert_node(&mut ontology.classes, Class::Named(OwlIri(t.subject.clone())));
                proof { lemma_seq_insert(c0, ClassV::Named(tv.subject)); }
            } else if t.object == v.owl_object_property {
                let ghost p0 = node_views(ontology.properties@);
                insert_node(&mut ontology.properties, Property::Object(OwlIri(t.subject.clone())));
                proof { lemma_seq_insert(p0, PropertyV::Object(tv.subject)); }
            } else if t.object == v.owl_datatype_property {
                let ghost p0 = node_views(ontology.properties@);
                insert_node(&mut ontology.properties, Property::Data(OwlIri(t.subject.clone())));
                proof { lemma_seq_insert(p0, PropertyV::Data(tv.subject)); }
            } else if t.object == v.owl_named_individual {
                let ghost i0 = node_views(ontology.individuals@);
                insert_node(&mut ontology.individuals, Individual(OwlIri(t.subject.clone())));
                proof { lemma_seq_insert(i0, tv.subject); }
            } else if t.object == v.owl_functional_property {
                if let Some(prop) = self.find_property_by_iri(ontology, t.subject.as_str()) {
                    ontology.add_axiom(Axiom::FunctionalProperty(prop));
                }
            } else if t.object == v.owl_inverse_functional_property {
                if let Some(prop) = self.find_property_by_iri(ontology, t.subject.as_str()) {
                    ontology.add_axiom(Axiom::InverseFunctionalProperty(prop));
                }
            } else if t.object == v.owl_transitive_property {
                if let Some(prop) = self.find_property_by_iri(ontology, t.subject.as_str()) {
                    ontology.add_axiom(Axiom::TransitiveProperty(prop));
                }
            } else if t.object == v.owl_symmetric_property {
                if let Some(prop) = self.find_property_by_iri(ontology, t.subject.as_str()) {
                    ontology.add_axiom(Axiom::SymmetricProperty(prop));
                }
            } else if !starts_with(t.object.as_str(), "http://www.w3.org/2002/07/owl#") {
                proof {
                    reveal_strlit("http://www.w3.org/2002/07/owl#");
                }
                let class = Class::Named(OwlIri(t.object.clone()));
                let individual = Individual(OwlIri(t.subject.clone()));
                ontology.add_axiom(Axiom::ClassAssertion(class, individual));
            } else {
                proof {
                    reveal_strlit("http://www.w3.org/2002/07/owl#");
                }
            }
        } else if t.predicate == v.rdfs_subclass_of || t.predicate == v.owl_subclass_of {
            let c1 = Class::Named(OwlIri(t.subject.clone()));
            let c2 = Class::Named(OwlIri(t.object.clone()));
            ontology.add_axiom(Axiom::SubClassOf(c1, c2));
        } else if t.predicate == v.owl_equivalent_class {
            let c1 = Class::Named(OwlIri(t.subject.clone()));
            let c2 = Class::Named(OwlIri(t.object.clone()));
            let c1b = c1.clone();
            let c2b = c2.clone();
            ontology.add_axiom(Axiom::SubClassOf(c1, c2));
            ontology.add_axiom(Axiom::SubClassOf(c2b, c1b));
        } else if t.predicate == v.rdfs_domain {
            if let Some(prop) = self.find_property_by_iri(ontology, t.subject.as_str()) {
                if let Property::Object(_) = prop {
                    let class = Class::Named(OwlIri(t.object.clone()));
                    ontology.add_axiom(Axiom::ObjectPropertyDomain(prop, class));
                }
            }
        } else if t.predicate == v.rdfs_range {
            if let Some(prop) = self.find_property_by_iri(ontology, t.subject.as_str()) {
                if let Property::Object(_) = prop {
                    let class = Class::Named(OwlIri(t.object.clone()));
                    ontology.add_axiom(Axiom::ObjectPropertyRange(prop, class));
                }
            }
        } else {
            if let Some(prop) = self.find_property_by_iri(ontology, t.predicate.as_str()) {
                if let Property::Object(_) = prop {
                    let i1 = Individual(OwlIri(t.subject.clone()));
                    let i2 = Individual(OwlIri(t.object.clone()));
                    ontology.add_axiom(Axiom::ObjectPropertyAssertion(prop, i1, i2));
                }
            }
        }
    }
}

} // verus!
