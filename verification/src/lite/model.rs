//! OWL Lite data model: IRIs, classes, properties, individuals, axioms and
//! ontologies.

use vstd::prelude::*;
use crate::closure::{GraphNode, node_views, distinct};
use crate::nodeset::{seq_insert, seq_extend, insert_node, extend_nodes, copy_nodes, lemma_seq_insert, lemma_seq_extend};

verus! {

/// OWL IRI.
#[derive(Debug, Eq, Hash)]
pub struct OwlIri(pub String);

impl OwlIri {
    pub fn new(s: String) -> (r: Self)
        ensures
            r.0@ == s@,
    {
        OwlIri(s)
    }

    pub fn as_str(&self) -> (r: &str)
        ensures
            r@ == self.0@,
    {
        self.0.as_str()
    }
}

impl Clone for OwlIri {
    fn clone(&self) -> (r: Self)
        ensures
            r.0@ == self.0@,
    {
        OwlIri(self.0.clone())
    }
}

impl PartialEq for OwlIri {
    fn eq(&self, other: &Self) -> (r: bool) {
        self.0 == other.0
    }
}

impl vstd::std_specs::cmp::PartialEqSpecImpl for OwlIri {
    open spec fn obeys_eq_spec() -> bool {
        true
    }

    open spec fn eq_spec(&self, other: &OwlIri) -> bool {
        self.0@ == other.0@
    }
}

impl GraphNode for OwlIri {
    type V = Seq<char>;

    open spec fn node_view(&self) -> Seq<char> {
        self.0@
    }

    fn same_node(&self, other: &Self) -> (r: bool) {
        self.0 == other.0
    }

    fn copy_node(&self) -> (r: Self) {
        OwlIri(self.0.clone())
    }
}

/// A class as a value.
pub enum ClassV {
    Named(Seq<char>),
    Thing,
    Nothing,
}

/// OWL class.
#[derive(Debug, Eq, Hash)]
pub enum Class {
    /// Named class
    Named(OwlIri),
    /// owl:Thing
    Thing,
    /// owl:Nothing
    Nothing,
}

impl Class {
    pub open spec fn view_of(&self) -> ClassV {
        match self {
            Class::Named(i) => ClassV::Named(i.0@),
            Class::Thing => ClassV::Thing,
            Class::Nothing => ClassV::Nothing,
        }
    }
}

impl Clone for Class {
    fn clone(&self) -> (r: Self)
        ensures
            r.view_of() == self.view_of(),
    {
        match self {
            Class::Named(i) => Class::Named(i.clone()),
            Class::Thing => Class::Thing,
            Class::Nothing => Class::Nothing,
        }
    }
}

impl PartialEq for Class {
    fn eq(&self, other: &Self) -> (r: bool) {
        match (self, other) {
            (Class::Named(a), Class::Named(b)) => a.0 == b.0,
            (Class::Thing, Class::Thing) => true,
            (Class::Nothing, Class::Nothing) => true,
            _ => false,
        }
    }
}

impl vstd::std_specs::cmp::PartialEqSpecImpl for Class {
    open spec fn obeys_eq_spec() -> bool {
        true
    }

    open spec fn eq_spec(&self, other: &Class) -> bool {
        self.view_of() == other.view_of()
    }
}

impl GraphNode for Class {
    type V = ClassV;

    open spec fn node_view(&self) -> ClassV {
        self.view_of()
    }

    fn same_node(&self, other: &Self) -> (r: bool) {
        *self == *other
    }

    fn copy_node(&self) -> (r: Self) {
        self.clone()
    }
}

/// A property as a value.
pub enum PropertyV {
    Object(Seq<char>),
    Data(Seq<char>),
}

impl PropertyV {
    /// The IRI of the property.
    pub open spec fn iri(self) -> Seq<char> {
        match self {
            PropertyV::Object(i) => i,
            PropertyV::Data(i) => i,
        }
    }
}

/// OWL property.
#[derive(Debug, Eq, Hash)]
pub enum Property {
    /// Object property
    Object(OwlIri),
    /// Data property
    Data(OwlIri),
}

impl Property {
    pub open spec fn view_of(&self) -> PropertyV {
        match self {
            Property::Object(i) => PropertyV::Object(i.0@),
            Property::Data(i) => PropertyV::Data(i.0@),
        }
    }
}

impl Clone for Property {
    fn clone(&self) -> (r: Self)
        ensures
            r.view_of() == self.view_of(),
    {
        match self {
            Property::Object(i) => Property::Object(i.clone()),
            Property::Data(i) => Property::Data(i.clone()),
        }
    }
}

impl PartialEq for Property {
    fn eq(&self, other: &Self) -> (r: bool) {
        match (self, other) {
            (Property::Object(a), Property::Object(b)) => a.0 == b.0,
            (Property::Data(a), Property::Data(b)) => a.0 == b.0,
            _ => false,
        }
    }
}

impl vstd::std_specs::cmp::PartialEqSpecImpl for Property {
    open spec fn obeys_eq_spec() -> bool {
        true
    }

    open spec fn eq_spec(&self, other: &Property) -> bool {
        self.view_of() == other.view_of()
    }
}

impl GraphNode for Property {
    type V = PropertyV;

    open spec fn node_view(&self) -> PropertyV {
        self.view_of()
    }

    fn same_node(&self, other: &Self) -> (r: bool) {
        *self == *other
    }

    fn copy_node(&self) -> (r: Self) {
        self.clone()
    }
}

/// OWL individual.
#[derive(Debug, Eq, Hash)]
pub struct Individual(pub OwlIri);

impl Clone for Individual {
    fn clone(&self) -> (r: Self)
        ensures
            r.0.0@ == self.0.0@,
    {
        Individual(self.0.clone())
    }
}

impl PartialEq for Individual {
    fn eq(&self, other: &Self) -> (r: bool) {
        self.0.0 == other.0.0
    }
}

impl vstd::std_specs::cmp::PartialEqSpecImpl for Individual {
    open spec fn obeys_eq_spec() -> bool {
        true
    }

    open spec fn eq_spec(&self, other: &Individual) -> bool {
        self.0.0@ == other.0.0@
    }
}

impl GraphNode for Individual {
    type V = Seq<char>;

    open spec fn node_view(&self) -> Seq<char> {
        self.0.0@
    }

    fn same_node(&self, other: &Self) -> (r: bool) {
        self.0.0 == other.0.0
    }

    fn copy_node(&self) -> (r: Self) {
        Individual(OwlIri(self.0.0.clone()))
    }
}

/// An OWL statement as a value.
pub enum AxiomV {
    SubClassOf(ClassV, ClassV),
    EquivalentClasses(Seq<ClassV>),
    DisjointClasses(Seq<ClassV>),
    SubPropertyOf(PropertyV, PropertyV),
    EquivalentProperties(Seq<PropertyV>),
    ObjectPropertyDomain(PropertyV, ClassV),
    ObjectPropertyRange(PropertyV, ClassV),
    FunctionalProperty(PropertyV),
    InverseFunctionalProperty(PropertyV),
    TransitiveProperty(PropertyV),
    SymmetricProperty(PropertyV),
    SameIndividual(Seq<Seq<char>>),
    DifferentIndividuals(Seq<Seq<char>>),
    ClassAssertion(ClassV, Seq<char>),
    ObjectPropertyAssertion(PropertyV, Seq<char>, Seq<char>),
    NegativeObjectPropertyAssertion(PropertyV, Seq<char>, Seq<char>),
}

/// OWL Lite statement (class, property and individual assertions).
#[derive(Debug)]
pub enum Axiom {
    /// SubClassOf(C1 C2)
    SubClassOf(Class, Class),
    /// EquivalentClasses(C1 ... Cn)
    EquivalentClasses(Vec<Class>),
    /// DisjointClasses(C1 ... Cn)
    DisjointClasses(Vec<Class>),
    /// SubPropertyOf(P1 P2)
    SubPropertyOf(Property, Property),
    /// EquivalentProperties(P1 ... Pn)
    EquivalentProperties(Vec<Property>),
    /// ObjectPropertyDomain(P C)
    ObjectPropertyDomain(Property, Class),
    /// ObjectPropertyRange(P C)
    ObjectPropertyRange(Property, Class),
    /// FunctionalProperty(P)
    FunctionalProperty(Property),
    /// InverseFunctionalProperty(P)
    InverseFunctionalProperty(Property),
    /// TransitiveProperty(P)
    TransitiveProperty(Property),
    /// SymmetricProperty(P)
    SymmetricProperty(Property),
    /// SameIndividual(i1 ... in)
    SameIndividual(Vec<Individual>),
    /// DifferentIndividuals(i1 ... in)
    DifferentIndividuals(Vec<Individual>),
    /// ClassAssertion(C i)
    ClassAssertion(Class, Individual),
    /// ObjectPropertyAssertion(P i1 i2)
    ObjectPropertyAssertion(Property, Individual, Individual),
    /// NegativeObjectPropertyAssertion(P i1 i2)
    NegativeObjectPropertyAssertion(Property, Individual, Individual),
}

impl Axiom {
    pub open spec fn view_of(&self) -> AxiomV {
        match self {
            Axiom::SubClassOf(a, b) => AxiomV::SubClassOf(a.view_of(), b.view_of()),
            Axiom::EquivalentClasses(cs) => AxiomV::EquivalentClasses(node_views(cs@)),
            Axiom::DisjointClasses(cs) => AxiomV::DisjointClasses(node_views(cs@)),
            Axiom::SubPropertyOf(a, b) => AxiomV::SubPropertyOf(a.view_of(), b.view_of()),
            Axiom::EquivalentProperties(ps) => AxiomV::EquivalentProperties(node_views(ps@)),
            Axiom::ObjectPropertyDomain(p, c) => AxiomV::ObjectPropertyDomain(p.view_of(), c.view_of()),
            Axiom::ObjectPropertyRange(p, c) => AxiomV::ObjectPropertyRange(p.view_of(), c.view_of()),
            Axiom::FunctionalProperty(p) => AxiomV::FunctionalProperty(p.view_of()),
            Axiom::InverseFunctionalProperty(p) => AxiomV::InverseFunctionalProperty(p.view_of()),
            Axiom::TransitiveProperty(p) => AxiomV::TransitiveProperty(p.view_of()),
            Axiom::SymmetricProperty(p) => AxiomV::SymmetricProperty(p.view_of()),
            Axiom::SameIndividual(is) => AxiomV::SameIndividual(node_views(is@)),
            Axiom::DifferentIndividuals(is) => AxiomV::DifferentIndividuals(node_views(is@)),
            Axiom::ClassAssertion(c, i) => AxiomV::ClassAssertion(c.view_of(), i.0.0@),
            Axiom::ObjectPropertyAssertion(p, a, b) => AxiomV::ObjectPropertyAssertion(p.view_of(), a.0.0@, b.0.0@),
            Axiom::NegativeObjectPropertyAssertion(p, a, b) => AxiomV::NegativeObjectPropertyAssertion(p.view_of(), a.0.0@, b.0.0@),
        }
    }
}

impl Axiom {
    /// A copy with the same value.
    pub fn copy(&self) -> (r: Axiom)
        ensures
            r.view_of() == self.view_of(),
    {
        match self {
            Axiom::SubClassOf(a, b) => Axiom::SubClassOf(a.clone(), b.clone()),
            Axiom::EquivalentClasses(cs) => Axiom::EquivalentClasses(copy_nodes(cs)),
            Axiom::DisjointClasses(cs) => Axiom::DisjointClasses(copy_nodes(cs)),
            Axiom::SubPropertyOf(a, b) => Axiom::SubPropertyOf(a.clone(), b.clone()),
            Axiom::EquivalentProperties(ps) => Axiom::EquivalentProperties(copy_nodes(ps)),
            Axiom::ObjectPropertyDomain(p, c) => Axiom::ObjectPropertyDomain(p.clone(), c.clone()),
            Axiom::ObjectPropertyRange(p, c) => Axiom::ObjectPropertyRange(p.clone(), c.clone()),
            Axiom::FunctionalProperty(p) => Axiom::FunctionalProperty(p.clone()),
            Axiom::InverseFunctionalProperty(p) => Axiom::InverseFunctionalProperty(p.clone()),
            Axiom::TransitiveProperty(p) => Axiom::TransitiveProperty(p.clone()),
            Axiom::SymmetricProperty(p) => Axiom::SymmetricProperty(p.clone()),
            Axiom::SameIndividual(is) => Axiom::SameIndividual(copy_nodes(is)),
            Axiom::DifferentIndividuals(is) => Axiom::DifferentIndividuals(copy_nodes(is)),
            Axiom::ClassAssertion(c, i) => Axiom::ClassAssertion(c.clone(), i.clone()),
            Axiom::ObjectPropertyAssertion(p, a, b) => Axiom::ObjectPropertyAssertion(p.clone(), a.clone(), b.clone()),
            Axiom::NegativeObjectPropertyAssertion(p, a, b) => Axiom::NegativeObjectPropertyAssertion(p.clone(), a.clone(), b.clone()),
        }
    }
}

/// The views of a list of axioms.
pub open spec fn axiom_views(s: Seq<Axiom>) -> Seq<AxiomV> {
    s.map_values(|a: Axiom| a.view_of())
}

/// The classes a statement mentions, in order.
pub open spec fn axiom_classes(a: AxiomV) -> Seq<ClassV> {
    match a {
        AxiomV::SubClassOf(c1, c2) => seq![c1, c2],
        AxiomV::EquivalentClasses(cs) => cs,
        AxiomV::DisjointClasses(cs) => cs,
        AxiomV::ObjectPropertyDomain(_, c) => seq![c],
        AxiomV::ObjectPropertyRange(_, c) => seq![c],
        AxiomV::ClassAssertion(c, _) => seq![c],
        _ => Seq::empty(),
    }
}

/// The properties a statement mentions, in order.
pub open spec fn axiom_properties(a: AxiomV) -> Seq<PropertyV> {
    match a {
        AxiomV::SubPropertyOf(p1, p2) => seq![p1, p2],
        AxiomV::EquivalentProperties(ps) => ps,
        AxiomV::ObjectPropertyDomain(p, _) => seq![p],
        AxiomV::ObjectPropertyRange(p, _) => seq![p],
        AxiomV::FunctionalProperty(p) => seq![p],
        AxiomV::InverseFunctionalProperty(p) => seq![p],
        AxiomV::TransitiveProperty(p) => seq![p],
        AxiomV::SymmetricProperty(p) => seq![p],
        AxiomV::ObjectPropertyAssertion(p, _, _) => seq![p],
        AxiomV::NegativeObjectPropertyAssertion(p, _, _) => seq![p],
        _ => Seq::empty(),
    }
}

/// The individuals a statement mentions, in order.
pub open spec fn axiom_individuals(a: AxiomV) -> Seq<Seq<char>> {
    match a {
        AxiomV::SameIndividual(is) => is,
        AxiomV::DifferentIndividuals(is) => is,
        AxiomV::ClassAssertion(_, i) => seq![i],
        AxiomV::ObjectPropertyAssertion(_, i1, i2) => seq![i1, i2],
        AxiomV::NegativeObjectPropertyAssertion(_, i1, i2) => seq![i1, i2],
        _ => Seq::empty(),
    }
}

/// An ontology as a value.
pub struct OntologyV {
    pub iri: Option<Seq<char>>,
    pub axioms: Seq<AxiomV>,
    pub classes: Seq<ClassV>,
    pub properties: Seq<PropertyV>,
    pub individuals: Seq<Seq<char>>,
}

/// The ontology after `a` was added: the statement is appended and the classes,
/// properties and individuals it mentions are recorded.
pub open spec fn add_axiom_spec(o: OntologyV, a: AxiomV) -> OntologyV {
    OntologyV {
        iri: o.iri,
        axioms: o.axioms.push(a),
        classes: seq_extend(o.classes, axiom_classes(a)),
        properties: seq_extend(o.properties, axiom_properties(a)),
        individuals: seq_extend(o.individuals, axiom_individuals(a)),
    }
}

/// OWL ontology.
#[derive(Debug)]
pub struct Ontology {
    /// Ontology IRI
    pub iri: Option<OwlIri>,
    /// All axioms of the ontology, in the order they were added
    pub axioms: Vec<Axiom>,
    /// All classes the ontology mentions, each once
    pub classes: Vec<Class>,
    /// All properties the ontology mentions, each once
    pub properties: Vec<Property>,
    /// All individuals the ontology mentions, each once
    pub individuals: Vec<Individual>,
}

impl Ontology {
    pub open spec fn view_of(&self) -> OntologyV {
        OntologyV {
            iri: match self.iri {
                Some(i) => Some(i.0@),
                None => None,
            },
            axioms: axiom_views(self.axioms@),
            classes: node_views(self.classes@),
            properties: node_views(self.properties@),
            individuals: node_views(self.individuals@),
        }
    }

    /// No class, property or individual is listed twice.
    pub open spec fn wf(&self) -> bool {
        &&& distinct(node_views(self.classes@))
        &&& distinct(node_views(self.properties@))
        &&& distinct(node_views(self.individuals@))
    }

    /// An empty ontology without IRI.
    pub fn new() -> (r: Self)
        ensures
            r.wf(),
            r.view_of() == (OntologyV { iri: None, axioms: Seq::empty(), classes: Seq::empty(), properties: Seq::empty(), individuals: Seq::empty() }),
    {
        let r = Ontology { iri: None, axioms: Vec::new(), classes: Vec::new(), properties: Vec::new(), individuals: Vec::new() };
        proof {
            assert(axiom_views(r.axioms@) =~= Seq::empty());
            assert(node_views(r.classes@) =~= Seq::empty());
            assert(node_views(r.properties@) =~= Seq::empty());
            assert(node_views(r.individuals@) =~= Seq::empty());
        }
        r
    }

    /// An empty ontology with an IRI.
    pub fn with_iri(iri: OwlIri) -> (r: Self)
        ensures
            r.wf(),
            r.view_of() == (OntologyV { iri: Some(iri.0@), axioms: Seq::empty(), classes: Seq::empty(), properties: Seq::empty(), individuals: Seq::empty() }),
    {
        let r = Ontology { iri: Some(iri), axioms: Vec::new(), classes: Vec::new(), properties: Vec::new(), individuals: Vec::new() };
        proof {
            assert(axiom_views(r.axioms@) =~= Seq::empty());
            assert(node_views(r.classes@) =~= Seq::empty());
            assert(node_views(r.properties@) =~= Seq::empty());
            assert(node_views(r.individuals@) =~= Seq::empty());
        }
        r
    }

    /// Append a statement and record the classes, properties and individuals
    /// it mentions.
    pub fn add_axiom(&mut self, ax: Axiom)
        ensures
            final(self).view_of() == add_axiom_spec(old(self).view_of(), ax.view_of()),
            old(self).wf() ==> final(self).wf(),
    {
        let ghost a = ax.view_of();
        let ghost c0 = node_views(self.classes@);
        let ghost p0 = node_views(self.properties@);
        let ghost i0 = node_views(self.individuals@);
        match &ax {
            Axiom::SubClassOf(c1, c2) => {
                insert_node(&mut self.classes, c1.clone());
                insert_node(&mut self.classes, c2.clone());
                proof { lemma_extend_two(c0, c1.view_of(), c2.view_of()); }
            },
            Axiom::EquivalentClasses(cs) => {
                extend_nodes(&mut self.classes, cs);
            },
            Axiom::DisjointClasses(cs) => {
                extend_nodes(&mut self.classes, cs);
            },
            Axiom::SubPropertyOf(p1, p2) => {
                insert_node(&mut self.properties, p1.clone());
                insert_node(&mut self.properties, p2.clone());
                proof { lemma_extend_two(p0, p1.view_of(), p2.view_of()); }
            },
            Axiom::EquivalentProperties(ps) => {
                extend_nodes(&mut self.properties, ps);
            },
            Axiom::ObjectPropertyDomain(p, c) => {
                insert_node(&mut self.properties, p.clone());
                insert_node(&mut self.classes, c.clone());
                proof { lemma_extend_one(p0, p.view_of()); lemma_extend_one(c0, c.view_of()); }
            },
            Axiom::ObjectPropertyRange(p, c) => {
                insert_node(&mut self.properties, p.clone());
                insert_node(&mut self.classes, c.clone());
                proof { lemma_extend_one(p0, p.view_of()); lemma_extend_one(c0, c.view_of()); }
            },
            Axiom::FunctionalProperty(p) => {
                insert_node(&mut self.properties, p.clone());
                proof { lemma_extend_one(p0, p.view_of()); }
            },
            Axiom::InverseFunctionalProperty(p) => {
                insert_node(&mut self.properties, p.clone());
                proof { lemma_extend_one(p0, p.view_of()); }
            },
            Axiom::TransitiveProperty(p) => {
                insert_node(&mut self.properties, p.clone());
                proof { lemma_extend_one(p0, p.view_of()); }
            },
            Axiom::SymmetricProperty(p) => {
                insert_node(&mut self.properties, p.clone());
                proof { lemma_extend_one(p0, p.view_of()); }
            },
            Axiom::SameIndividual(is) => {
                extend_nodes(&mut self.individuals, is);
            },
            Axiom::DifferentIndividuals(is) => {
                extend_nodes(&mut self.individuals, is);
            },
            Axiom::ClassAssertion(c, i) => {
                insert_node(&mut self.classes, c.clone());
                insert_node(&mut self.individuals, i.copy_node());
                proof { lemma_extend_one(c0, c.view_of()); lemma_extend_one(i0, i.node_view()); }
            },
            Axiom::ObjectPropertyAssertion(p, i1, i2) => {
                insert_node(&mut self.properties, p.clone());
                insert_node(&mut self.individuals, i1.copy_node());
                insert_node(&mut self.individuals, i2.copy_node());
                proof { lemma_extend_one(p0, p.view_of()); lemma_extend_two(i0, i1.node_view(), i2.node_view()); }
            },
            Axiom::NegativeObjectPropertyAssertion(p, i1, i2) => {
                insert_node(&mut self.properties, p.clone());
                insert_node(&mut self.individuals, i1.copy_node());
                insert_node(&mut self.individuals, i2.copy_node());
                proof { lemma_extend_one(p0, p.view_of()); lemma_extend_two(i0, i1.node_view(), i2.node_view()); }
            },
        }
        proof {
            lemma_seq_extend(c0, axiom_classes(a));
            lemma_seq_extend(p0, axiom_properties(a));
            lemma_seq_extend(i0, axiom_individuals(a));
            assert(node_views(self.classes@) == seq_extend(c0, axiom_classes(a)));
            assert(node_views(self.properties@) == seq_extend(p0, axiom_properties(a)));
            assert(node_views(self.individuals@) == seq_extend(i0, axiom_individuals(a)));
        }
        let ghost ax0 = self.axioms@;
        self.axioms.push(ax);
        proof {
            assert(axiom_views(self.axioms@) =~= axiom_views(ax0).push(a));
        }
    }
}

proof fn lemma_extend_one<V>(s: Seq<V>, x: V)
    ensures
        seq_extend(s, seq![x]) == seq_insert(s, x),
{
    assert(seq![x].drop_last() =~= Seq::<V>::empty());
    assert(seq_extend(s, Seq::<V>::empty()) == s);
}

proof fn lemma_extend_two<V>(s: Seq<V>, x: V, y: V)
    ensures
        seq_extend(s, seq![x, y]) == seq_insert(seq_insert(s, x), y),
{
    assert(seq![x, y].drop_last() =~= seq![x]);
    lemma_extend_one(s, x);
}

} // verus!
