//! OWL DL data model: class and property expressions, statements and
//! ontologies.

use vstd::prelude::*;
use crate::closure::{GraphNode, node_views, distinct, contains_node};
use crate::nodeset::{seq_insert, seq_extend, insert_node, extend_nodes, lemma_seq_insert, lemma_seq_extend};
use crate::lite::model::{OwlIri, Class, ClassV, Property, PropertyV, Individual, Axiom as LiteAxiom, AxiomV as LiteAxiomV};

verus! {

/// A property expression as a value.
pub enum PropertyExpressionV {
    ObjectProperty(Seq<char>),
    DataProperty(Seq<char>),
    InverseOf(Box<PropertyExpressionV>),
}

/// OWL DL property expression.
#[derive(Debug)]
pub enum PropertyExpression {
    /// Object property
    ObjectProperty(OwlIri),
    /// Data property
    DataProperty(OwlIri),
    /// Inverse property
    InverseOf(Box<PropertyExpression>),
}

pub open spec fn pe_view(p: PropertyExpression) -> PropertyExpressionV
    decreases p,
{
    match p {
        PropertyExpression::ObjectProperty(i) => PropertyExpressionV::ObjectProperty(i.0@),
        PropertyExpression::DataProperty(i) => PropertyExpressionV::DataProperty(i.0@),
        PropertyExpression::InverseOf(b) => PropertyExpressionV::InverseOf(Box::new(pe_view(*b))),
    }
}

impl PropertyExpression {
    /// Whether two property expressions are equal.
    pub fn same(&self, other: &PropertyExpression) -> (r: bool)
        ensures
            r == (pe_view(*self) == pe_view(*other)),
        decreases self,
    {
        match (self, other) {
            (PropertyExpression::ObjectProperty(a), PropertyExpression::ObjectProperty(b)) => a.0 == b.0,
            (PropertyExpression::DataProperty(a), PropertyExpression::DataProperty(b)) => a.0 == b.0,
            (PropertyExpression::InverseOf(a), PropertyExpression::InverseOf(b)) => {
                let r = (**a).same(&**b);
                proof {
                    if pe_view(*self) == pe_view(*other) {
                        assert(pe_view(**a) == pe_view(**b));
                    }
                }
                r
            },
            _ => false,
        }
    }

    /// A copy with the same value.
    pub fn copy(&self) -> (r: PropertyExpression)
        ensures
            pe_view(r) == pe_view(*self),
        decreases self,
    {
        match self {
            PropertyExpression::ObjectProperty(i) => PropertyExpression::ObjectProperty(i.clone()),
            PropertyExpression::DataProperty(i) => PropertyExpression::DataProperty(i.clone()),
            PropertyExpression::InverseOf(b) => PropertyExpression::InverseOf(Box::new((**b).copy())),
        }
    }
}

impl Clone for PropertyExpression {
    fn clone(&self) -> (r: Self)
        ensures
            pe_view(r) == pe_view(*self),
    {
        self.copy()
    }
}

impl PartialEq for PropertyExpression {
    fn eq(&self, other: &Self) -> (r: bool) {
        self.same(other)
    }
}

impl vstd::std_specs::cmp::PartialEqSpecImpl for PropertyExpression {
    open spec fn obeys_eq_spec() -> bool {
        true
    }

    open spec fn eq_spec(&self, other: &PropertyExpression) -> bool {
        pe_view(*self) == pe_view(*other)
    }
}

impl GraphNode for PropertyExpression {
    type V = PropertyExpressionV;

    open spec fn node_view(&self) -> PropertyExpressionV {
        pe_view(*self)
    }

    fn same_node(&self, other: &Self) -> (r: bool) {
        self.same(other)
    }

    fn copy_node(&self) -> (r: Self) {
        self.copy()
    }
}

/// A class expression as a value.
pub enum ClassExpressionV {
    Named(Seq<char>),
    Thing,
    Nothing,
    IntersectionOf(Seq<ClassExpressionV>),
    UnionOf(Seq<ClassExpressionV>),
    ComplementOf(Box<ClassExpressionV>),
    OneOf(Seq<Seq<char>>),
    SomeValuesFrom(PropertyExpressionV, Box<ClassExpressionV>),
    AllValuesFrom(PropertyExpressionV, Box<ClassExpressionV>),
    HasValue(PropertyExpressionV, Seq<char>),
    MinCardinality(u32, PropertyExpressionV, Option<Box<ClassExpressionV>>),
    MaxCardinality(u32, PropertyExpressionV, Option<Box<ClassExpressionV>>),
    ExactCardinality(u32, PropertyExpressionV, Option<Box<ClassExpressionV>>),
}

/// OWL DL class expression.
#[derive(Debug)]
pub enum ClassExpression {
    /// Named class
    Named(OwlIri),
    /// owl:Thing
    Thing,
    /// owl:Nothing
    Nothing,
    /// Intersection of classes
    IntersectionOf(Vec<ClassExpression>),
    /// Union of classes
    UnionOf(Vec<ClassExpression>),
    /// Complement of a class
    ComplementOf(Box<ClassExpression>),
    /// Enumeration of individuals
    OneOf(Vec<Individual>),
    /// Existential restriction
    SomeValuesFrom { property: PropertyExpression, class: Box<ClassExpression> },
    /// Universal restriction
    AllValuesFrom { property: PropertyExpression, class: Box<ClassExpression> },
    /// Value restriction
    HasValue { property: PropertyExpression, individual: Individual },
    /// Minimum cardinality; no class means owl:Thing
    MinCardinality { cardinality: u32, property: PropertyExpression, class: Option<Box<ClassExpression>> },
    /// Maximum cardinality; no class means owl:Thing
    MaxCardinality { cardinality: u32, property: PropertyExpression, class: Option<Box<ClassExpression>> },
    /// Exact cardinality; no class means owl:Thing
    ExactCardinality { cardinality: u32, property: PropertyExpression, class: Option<Box<ClassExpression>> },
}

pub open spec fn ce_view(c: ClassExpression) -> ClassExpressionV
    decreases c,
{
    match c {
        ClassExpression::Named(i) => ClassExpressionV::Named(i.0@),
        ClassExpression::Thing => ClassExpressionV::Thing,
        ClassExpression::Nothing => ClassExpressionV::Nothing,
        ClassExpression::IntersectionOf(v) => ClassExpressionV::IntersectionOf(ce_seq_view(v@)),
        ClassExpression::UnionOf(v) => ClassExpressionV::UnionOf(ce_seq_view(v@)),
        ClassExpression::ComplementOf(b) => ClassExpressionV::ComplementOf(Box::new(ce_view(*b))),
        ClassExpression::OneOf(v) => ClassExpressionV::OneOf(node_views(v@)),
        ClassExpression::SomeValuesFrom { property, class } => ClassExpressionV::SomeValuesFrom(pe_view(property), Box::new(ce_view(*class))),
        ClassExpression::AllValuesFrom { property, class } => ClassExpressionV::AllValuesFrom(pe_view(property), Box::new(ce_view(*class))),
        ClassExpression::HasValue { property, individual } => ClassExpressionV::HasValue(pe_view(property), individual.0.0@),
        ClassExpression::MinCardinality { cardinality, property, class } => ClassExpressionV::MinCardinality(cardinality, pe_view(property),
            match class { Some(b) => Some(Box::new(ce_view(*b))), None => None }),
        ClassExpression::MaxCardinality { cardinality, property, class } => ClassExpressionV::MaxCardinality(cardinality, pe_view(property),
            match class { Some(b) => Some(Box::new(ce_view(*b))), None => None }),
        ClassExpression::ExactCardinality { cardinality, property, class } => ClassExpressionV::ExactCardinality(cardinality, pe_view(property),
            match class { Some(b) => Some(Box::new(ce_view(*b))), None => None }),
    }
}

pub open spec fn ce_seq_view(s: Seq<ClassExpression>) -> Seq<ClassExpressionV>
    decreases s,
{
    if s.len() == 0 {
        Seq::empty()
    } else {
        ce_seq_view(s.drop_last()).push(ce_view(s.last()))
    }
}

pub proof fn lemma_ce_seq_view(s: Seq<ClassExpression>)
    ensures
        ce_seq_view(s).len() == s.len(),
        forall|i: int| 0 <= i < s.len() ==> #[trigger] ce_seq_view(s)[i] == ce_view(s[i]),
    decreases s.len(),
{
    if s.len() > 0 {
        lemma_ce_seq_view(s.drop_last());
        assert forall|i: int| 0 <= i < s.len() implies #[trigger] ce_seq_view(s)[i] == ce_view(s[i]) by {
            if i < s.len() - 1 {
                assert(s.drop_last()[i] == s[i]);
            }
        }
    }
}

/// A class of OWL Lite as a class expression.
pub open spec fn lite_class_ce(c: ClassV) -> ClassExpressionV {
    match c {
        ClassV::Named(i) => ClassExpressionV::Named(i),
        ClassV::Thing => ClassExpressionV::Thing,
        ClassV::Nothing => ClassExpressionV::Nothing,
    }
}

/// A property of OWL Lite as a property expression.
pub open spec fn lite_property_pe(p: PropertyV) -> PropertyExpressionV {
    match p {
        PropertyV::Object(i) => PropertyExpressionV::ObjectProperty(i),
        PropertyV::Data(i) => PropertyExpressionV::DataProperty(i),
    }
}

impl ClassExpression {
    /// Whether two class expressions are equal.
    pub fn same(&self, other: &ClassExpression) -> (r: bool)
        ensures
            r == (ce_view(*self) == ce_view(*other)),
        decreases self,
    {
        match (self, other) {
            (ClassExpression::Named(a), ClassExpression::Named(b)) => a.0 == b.0,
            (ClassExpression::Thing, ClassExpression::Thing) => true,
            (ClassExpression::Nothing, ClassExpression::Nothing) => true,
            (ClassExpression::IntersectionOf(a), ClassExpression::IntersectionOf(b)) => {
                proof {
                    assert(decreases_to!(*self => a));
                }
                Self::same_list(a, b, Ghost(*self))
            },
            (ClassExpression::UnionOf(a), ClassExpression::UnionOf(b)) => {
                proof {
                    assert(decreases_to!(*self => a));
                }
                Self::same_list(a, b, Ghost(*self))
            },
            (ClassExpression::ComplementOf(a), ClassExpression::ComplementOf(b)) => {
                let r = (**a).same(&**b);
                proof {
                    if ce_view(*self) == ce_view(*other) {
                        assert(ce_view(**a) == ce_view(**b));
                    }
                }
                r
            },
            (ClassExpression::OneOf(a), ClassExpression::OneOf(b)) => same_individuals(a, b),
            (ClassExpression::SomeValuesFrom { property: p1, class: c1 }, ClassExpression::SomeValuesFrom { property: p2, class: c2 }) => {
                let r = p1.same(p2) && (**c1).same(&**c2);
                proof {
                    if ce_view(*self) == ce_view(*other) {
                        assert(ce_view(**c1) == ce_view(**c2));
                    }
                }
                r
            },
            (ClassExpression::AllValuesFrom { property: p1, class: c1 }, ClassExpression::AllValuesFrom { property: p2, class: c2 }) => {
                let r = p1.same(p2) && (**c1).same(&**c2);
                proof {
                    if ce_view(*self) == ce_view(*other) {
                        assert(ce_view(**c1) == ce_view(**c2));
                    }
                }
                r
            },
            (ClassExpression::HasValue { property: p1, individual: i1 }, ClassExpression::HasValue { property: p2, individual: i2 }) => {
                p1.same(p2) && i1.0.0 == i2.0.0
            },
            (ClassExpression::MinCardinality { cardinality: n1, property: p1, class: c1 }, ClassExpression::MinCardinality { cardinality: n2, property: p2, class: c2 }) => {
                *n1 == *n2 && p1.same(p2) && Self::same_option(c1, c2, Ghost(*self))
            },
            (ClassExpression::MaxCardinality { cardinality: n1, property: p1, class: c1 }, ClassExpression::MaxCardinality { cardinality: n2, property: p2, class: c2 }) => {
                *n1 == *n2 && p1.same(p2) && Self::same_option(c1, c2, Ghost(*self))
            },
            (ClassExpression::ExactCardinality { cardinality: n1, property: p1, class: c1 }, ClassExpression::ExactCardinality { cardinality: n2, property: p2, class: c2 }) => {
                *n1 == *n2 && p1.same(p2) && Self::same_option(c1, c2, Ghost(*self))
            },
            _ => false,
        }
    }

    fn same_option(a: &Option<Box<ClassExpression>>, b: &Option<Box<ClassExpression>>, Ghost(parent): Ghost<ClassExpression>) -> (r: bool)
        requires
            decreases_to!(parent => *a),
        ensures
            r == ((match *a { Some(x) => Some(Box::new(ce_view(*x))), None => None::<Box<ClassExpressionV>> })
                == (match *b { Some(x) => Some(Box::new(ce_view(*x))), None => None::<Box<ClassExpressionV>> })),
        decreases parent, 0int,
    {
        match (a, b) {
            (Some(x), Some(y)) => {
                proof {
                    assert(decreases_to!(*a => a->0));
                }
                (**x).same(&**y)
            },
            (None, None) => true,
            _ => false,
        }
    }

    fn same_list(a: &Vec<ClassExpression>, b: &Vec<ClassExpression>, Ghost(parent): Ghost<ClassExpression>) -> (r: bool)
        requires
            decreases_to!(parent => *a),
        ensures
            r == (ce_seq_view(a@) == ce_seq_view(b@)),
        decreases parent, 0int,
    {
        proof {
            lemma_ce_seq_view(a@);
            lemma_ce_seq_view(b@);
        }
        if a.len() != b.len() {
            return false;
        }
        let mut i: usize = 0;
        while i < a.len()
            invariant
                a@.len() == b@.len(),
                i <= a@.len(),
                decreases_to!(parent => *a),
                ce_seq_view(a@).len() == a@.len(),
                ce_seq_view(b@).len() == b@.len(),
                forall|k: int| 0 <= k < a@.len() ==> #[trigger] ce_seq_view(a@)[k] == ce_view(a@[k]),
                forall|k: int| 0 <= k < b@.len() ==> #[trigger] ce_seq_view(b@)[k] == ce_view(b@[k]),
                forall|k: int| 0 <= k < i ==> ce_view(a@[k]) == ce_view(b@[k]),
            decreases a.len() - i,
        {
            proof {
                assert(decreases_to!(*a => a@));
                assert(decreases_to!(a@ => a@[i as int]));
            }
            if !a[i].same(&b[i]) {
                proof {
                    assert(ce_seq_view(a@)[i as int] != ce_seq_view(b@)[i as int]);
                }
                return false;
            }
            i += 1;
        }
        proof {
            assert(ce_seq_view(a@) =~= ce_seq_view(b@));
        }
        true
    }

    /// A copy with the same value.
    pub fn copy(&self) -> (r: ClassExpression)
        ensures
            ce_view(r) == ce_view(*self),
        decreases self,
    {
        match self {
            ClassExpression::Named(i) => ClassExpression::Named(i.clone()),
            ClassExpression::Thing => ClassExpression::Thing,
            ClassExpression::Nothing => ClassExpression::Nothing,
            ClassExpression::IntersectionOf(v) => {
                proof {
                    assert(decreases_to!(*self => v));
                }
                ClassExpression::IntersectionOf(Self::copy_list(v, Ghost(*self)))
            },
            ClassExpression::UnionOf(v) => {
                proof {
                    assert(decreases_to!(*self => v));
                }
                ClassExpression::UnionOf(Self::copy_list(v, Ghost(*self)))
            },
            ClassExpression::ComplementOf(b) => ClassExpression::ComplementOf(Box::new((**b).copy())),
            ClassExpression::OneOf(v) => ClassExpression::OneOf(copy_individuals(v)),
            ClassExpression::SomeValuesFrom { property, class } => ClassExpression::SomeValuesFrom { property: property.copy(), class: Box::new((**class).copy()) },
            ClassExpression::AllValuesFrom { property, class } => ClassExpression::AllValuesFrom { property: property.copy(), class: Box::new((**class).copy()) },
            ClassExpression::HasValue { property, individual } => ClassExpression::HasValue { property: property.copy(), individual: individual.copy_node() },
            ClassExpression::MinCardinality { cardinality, property, class } => ClassExpression::MinCardinality {
                cardinality: *cardinality, property: property.copy(), class: Self::copy_option(class, Ghost(*self)) },
            ClassExpression::MaxCardinality { cardinality, property, class } => ClassExpression::MaxCardinality {
                cardinality: *cardinality, property: property.copy(), class: Self::copy_option(class, Ghost(*self)) },
            ClassExpression::ExactCardinality { cardinality, property, class } => ClassExpression::ExactCardinality {
                cardinality: *cardinality, property: property.copy(), class: Self::copy_option(class, Ghost(*self)) },
        }
    }

    fn copy_option(a: &Option<Box<ClassExpression>>, Ghost(parent): Ghost<ClassExpression>) -> (r: Option<Box<ClassExpression>>)
        requires
            decreases_to!(parent => *a),
        ensures
            (match r { Some(x) => Some(Box::new(ce_view(*x))), None => None::<Box<ClassExpressionV>> })
                == (match *a { Some(x) => Some(Box::new(ce_view(*x))), None => None::<Box<ClassExpressionV>> }),
        decreases parent, 0int,
    {
        match a {
            Some(x) => {
                proof {
                    assert(decreases_to!(*a => a->0));
                }
                Some(Box::new((**x).copy()))
            },
            None => None,
        }
    }

    fn copy_list(a: &Vec<ClassExpression>, Ghost(parent): Ghost<ClassExpression>) -> (r: Vec<ClassExpression>)
        requires
            decreases_to!(parent => *a),
        ensures
            ce_seq_view(r@) == ce_seq_view(a@),
        decreases parent, 0int,
    {
        let mut out: Vec<ClassExpression> = Vec::new();
        let mut i: usize = 0;
        while i < a.len()
            invariant
                i <= a@.len(),
                out@.len() == i,
                decreases_to!(parent => *a),
                forall|k: int| 0 <= k < i ==> ce_view(#[trigger] out@[k]) == ce_view(a@[k]),
            decreases a.len() - i,
        {
            proof {
                assert(decreases_to!(*a => a@));
                assert(decreases_to!(a@ => a@[i as int]));
            }
            out.push(a[i].copy());
            i += 1;
        }
        proof {
            lemma_ce_seq_view(out@);
            lemma_ce_seq_view(a@);
            assert(ce_seq_view(out@) =~= ce_seq_view(a@));
        }
        out
    }
}

/// Whether two lists of individuals are equal.
fn same_individuals(a: &Vec<Individual>, b: &Vec<Individual>) -> (r: bool)
    ensures
        r == (node_views(a@) == node_views(b@)),
{
    if a.len() != b.len() {
        proof {
            assert(node_views(a@).len() != node_views(b@).len());
        }
        return false;
    }
    let mut i: usize = 0;
    while i < a.len()
        invariant
            a@.len() == b@.len(),
            i <= a@.len(),
            forall|k: int| 0 <= k < i ==> a@[k].node_view() == b@[k].node_view(),
        decreases a.len() - i,
    {
        if !a[i].same_node(&b[i]) {
            proof {
                assert(node_views(a@)[i as int] != node_views(b@)[i as int]);
            }
            return false;
        }
        i += 1;
    }
    proof {
        assert(node_views(a@) =~= node_views(b@));
    }
    true
}

/// A copy of a list of individuals.
fn copy_individuals(a: &Vec<Individual>) -> (r: Vec<Individual>)
    ensures
        node_views(r@) == node_views(a@),
{
    let mut out: Vec<Individual> = Vec::new();
    let mut i: usize = 0;
    while i < a.len()
        invariant
            i <= a@.len(),
            out@.len() == i,
            forall|k: int| 0 <= k < i ==> (#[trigger] out@[k]).node_view() == a@[k].node_view(),
        decreases a.len() - i,
    {
        out.push(a[i].copy_node());
        i += 1;
    }
    proof {
        assert(node_views(out@) =~= node_views(a@));
    }
    out
}

impl Clone for ClassExpression {
    fn clone(&self) -> (r: Self)
        ensures
            ce_view(r) == ce_view(*self),
    {
        self.copy()
    }
}

impl PartialEq for ClassExpression {
    fn eq(&self, other: &Self) -> (r: bool) {
        self.same(other)
    }
}

impl vstd::std_specs::cmp::PartialEqSpecImpl for ClassExpression {
    open spec fn obeys_eq_spec() -> bool {
        true
    }

    open spec fn eq_spec(&self, other: &ClassExpression) -> bool {
        ce_view(*self) == ce_view(*other)
    }
}

impl GraphNode for ClassExpression {
    type V = ClassExpressionV;

    open spec fn node_view(&self) -> ClassExpressionV {
        ce_view(*self)
    }

    fn same_node(&self, other: &Self) -> (r: bool) {
        self.same(other)
    }

    fn copy_node(&self) -> (r: Self) {
        self.copy()
    }
}

/// An OWL DL statement as a value.
pub enum DlAxiomV {
    OwlLite(LiteAxiomV),
    SubClassOf(ClassExpressionV, ClassExpressionV),
    EquivalentClasses(Seq<ClassExpressionV>),
    DisjointClasses(Seq<ClassExpressionV>),
    SubPropertyOf(PropertyExpressionV, PropertyExpressionV),
    EquivalentProperties(Seq<PropertyExpressionV>),
    ObjectPropertyDomain(PropertyExpressionV, ClassExpressionV),
    ObjectPropertyRange(PropertyExpressionV, ClassExpressionV),
    FunctionalProperty(PropertyExpressionV),
    InverseFunctionalProperty(PropertyExpressionV),
    TransitiveProperty(PropertyExpressionV),
    SymmetricProperty(PropertyExpressionV),
    AsymmetricProperty(PropertyExpressionV),
    ReflexiveProperty(PropertyExpressionV),
    IrreflexiveProperty(PropertyExpressionV),
    DisjointProperties(Seq<PropertyExpressionV>),
    SameIndividual(Seq<Seq<char>>),
    DifferentIndividuals(Seq<Seq<char>>),
    ClassAssertion(ClassExpressionV, Seq<char>),
    ObjectPropertyAssertion(PropertyExpressionV, Seq<char>, Seq<char>),
    NegativeObjectPropertyAssertion(PropertyExpressionV, Seq<char>, Seq<char>),
    DataPropertyAssertion(Seq<char>, Seq<char>, Seq<char>),
    NegativeDataPropertyAssertion(Seq<char>, Seq<char>, Seq<char>),
}

/// OWL DL statement.
#[derive(Debug)]
pub enum Axiom {
    /// A statement of OWL Lite
    OwlLite(LiteAxiom),
    SubClassOf(ClassExpression, ClassExpression),
    EquivalentClasses(Vec<ClassExpression>),
    DisjointClasses(Vec<ClassExpression>),
    SubPropertyOf(PropertyExpression, PropertyExpression),
    EquivalentProperties(Vec<PropertyExpression>),
    ObjectPropertyDomain(PropertyExpression, ClassExpression),
    ObjectPropertyRange(PropertyExpression, ClassExpression),
    FunctionalProperty(PropertyExpression),
    InverseFunctionalProperty(PropertyExpression),
    TransitiveProperty(PropertyExpression),
    SymmetricProperty(PropertyExpression),
    AsymmetricProperty(PropertyExpression),
    ReflexiveProperty(PropertyExpression),
    IrreflexiveProperty(PropertyExpression),
    DisjointProperties(Vec<PropertyExpression>),
    SameIndividual(Vec<Individual>),
    DifferentIndividuals(Vec<Individual>),
    ClassAssertion(ClassExpression, Individual),
    ObjectPropertyAssertion(PropertyExpression, Individual, Individual),
    NegativeObjectPropertyAssertion(PropertyExpression, Individual, Individual),
    /// Data property, individual and value
    DataPropertyAssertion(OwlIri, Individual, String),
    NegativeDataPropertyAssertion(OwlIri, Individual, String),
}

impl Axiom {
    pub open spec fn view_of(&self) -> DlAxiomV {
        match self {
            Axiom::OwlLite(a) => DlAxiomV::OwlLite(a.view_of()),
            Axiom::SubClassOf(a, b) => DlAxiomV::SubClassOf(ce_view(*a), ce_view(*b)),
            Axiom::EquivalentClasses(cs) => DlAxiomV::EquivalentClasses(node_views(cs@)),
            Axiom::DisjointClasses(cs) => DlAxiomV::DisjointClasses(node_views(cs@)),
            Axiom::SubPropertyOf(a, b) => DlAxiomV::SubPropertyOf(pe_view(*a), pe_view(*b)),
            Axiom::EquivalentProperties(ps) => DlAxiomV::EquivalentProperties(node_views(ps@)),
            Axiom::ObjectPropertyDomain(p, c) => DlAxiomV::ObjectPropertyDomain(pe_view(*p), ce_view(*c)),
            Axiom::ObjectPropertyRange(p, c) => DlAxiomV::ObjectPropertyRange(pe_view(*p), ce_view(*c)),
            Axiom::FunctionalProperty(p) => DlAxiomV::FunctionalProperty(pe_view(*p)),
            Axiom::InverseFunctionalProperty(p) => DlAxiomV::InverseFunctionalProperty(pe_view(*p)),
            Axiom::TransitiveProperty(p) => DlAxiomV::TransitiveProperty(pe_view(*p)),
            Axiom::SymmetricProperty(p) => DlAxiomV::SymmetricProperty(pe_view(*p)),
            Axiom::AsymmetricProperty(p) => DlAxiomV::AsymmetricProperty(pe_view(*p)),
            Axiom::ReflexiveProperty(p) => DlAxiomV::ReflexiveProperty(pe_view(*p)),
            Axiom::IrreflexiveProperty(p) => DlAxiomV::IrreflexiveProperty(pe_view(*p)),
            Axiom::DisjointProperties(ps) => DlAxiomV::DisjointProperties(node_views(ps@)),
            Axiom::SameIndividual(is) => DlAxiomV::SameIndividual(node_views(is@)),
            Axiom::DifferentIndividuals(is) => DlAxiomV::DifferentIndividuals(node_views(is@)),
            Axiom::ClassAssertion(c, i) => DlAxiomV::ClassAssertion(ce_view(*c), i.0.0@),
            Axiom::ObjectPropertyAssertion(p, a, b) => DlAxiomV::ObjectPropertyAssertion(pe_view(*p), a.0.0@, b.0.0@),
            Axiom::NegativeObjectPropertyAssertion(p, a, b) => DlAxiomV::NegativeObjectPropertyAssertion(pe_view(*p), a.0.0@, b.0.0@),
            Axiom::DataPropertyAssertion(p, i, v) => DlAxiomV::DataPropertyAssertion(p.0@, i.0.0@, v@),
            Axiom::NegativeDataPropertyAssertion(p, i, v) => DlAxiomV::NegativeDataPropertyAssertion(p.0@, i.0.0@, v@),
        }
    }
}

/// The views of a list of OWL DL statements.
pub open spec fn dl_axiom_views(s: Seq<Axiom>) -> Seq<DlAxiomV> {
    s.map_values(|a: Axiom| a.view_of())
}

/// An OWL DL ontology as a value.
pub struct DlOntologyV {
    pub iri: Option<Seq<char>>,
    pub axioms: Seq<DlAxiomV>,
    pub classes: Seq<ClassV>,
    pub properties: Seq<PropertyV>,
    pub individuals: Seq<Seq<char>>,
    pub class_expressions: Seq<ClassExpressionV>,
    pub property_expressions: Seq<PropertyExpressionV>,
}

pub open spec fn with_class(o: DlOntologyV, c: ClassV) -> DlOntologyV {
    DlOntologyV { classes: seq_insert(o.classes, c), ..o }
}

pub open spec fn with_property(o: DlOntologyV, p: PropertyV) -> DlOntologyV {
    DlOntologyV { properties: seq_insert(o.properties, p), ..o }
}

pub open spec fn with_individual(o: DlOntologyV, i: Seq<char>) -> DlOntologyV {
    DlOntologyV { individuals: seq_insert(o.individuals, i), ..o }
}

pub open spec fn with_individuals(o: DlOntologyV, is: Seq<Seq<char>>) -> DlOntologyV {
    DlOntologyV { individuals: seq_extend(o.individuals, is), ..o }
}

/// The ontology after the classes and individuals that `e` mentions, and
/// `e` and its parts, were recorded (parts first).
pub open spec fn collect_ce(o: DlOntologyV, e: ClassExpressionV) -> DlOntologyV
    decreases e, 1int,
{
    let o1 = match e {
        ClassExpressionV::Named(i) => with_class(o, ClassV::Named(i)),
        ClassExpressionV::Thing => with_class(o, ClassV::Thing),
        ClassExpressionV::Nothing => with_class(o, ClassV::Nothing),
        ClassExpressionV::IntersectionOf(cs) => collect_ces(o, cs),
        ClassExpressionV::UnionOf(cs) => collect_ces(o, cs),
        ClassExpressionV::ComplementOf(b) => collect_ce(o, *b),
        ClassExpressionV::OneOf(is) => with_individuals(o, is),
        ClassExpressionV::SomeValuesFrom(_, b) => collect_ce(o, *b),
        ClassExpressionV::AllValuesFrom(_, b) => collect_ce(o, *b),
        ClassExpressionV::HasValue(_, i) => with_individual(o, i),
        ClassExpressionV::MinCardinality(_, _, c) => match c { Some(b) => collect_ce(o, *b), None => o },
        ClassExpressionV::MaxCardinality(_, _, c) => match c { Some(b) => collect_ce(o, *b), None => o },
        ClassExpressionV::ExactCardinality(_, _, c) => match c { Some(b) => collect_ce(o, *b), None => o },
    };
    DlOntologyV { class_expressions: seq_insert(o1.class_expressions, e), ..o1 }
}

/// `collect_ce` for each expression of `cs` in turn.
pub open spec fn collect_ces(o: DlOntologyV, cs: Seq<ClassExpressionV>) -> DlOntologyV
    decreases cs, 0int,
{
    if cs.len() == 0 {
        o
    } else {
        collect_ce(collect_ces(o, cs.drop_last()), cs.last())
    }
}

/// The ontology after the properties that `p` mentions, and `p` and its
/// parts, were recorded (parts first).
pub open spec fn collect_pe(o: DlOntologyV, p: PropertyExpressionV) -> DlOntologyV
    decreases p,
{
    let o1 = match p {
        PropertyExpressionV::ObjectProperty(i) => with_property(o, PropertyV::Object(i)),
        PropertyExpressionV::DataProperty(i) => with_property(o, PropertyV::Data(i)),
        PropertyExpressionV::InverseOf(b) => collect_pe(o, *b),
    };
    DlOntologyV { property_expressions: seq_insert(o1.property_expressions, p), ..o1 }
}

/// `collect_pe` for each expression of `ps` in turn.
pub open spec fn collect_pes(o: DlOntologyV, ps: Seq<PropertyExpressionV>) -> DlOntologyV
    decreases ps.len(),
{
    if ps.len() == 0 {
        o
    } else {
        collect_pe(collect_pes(o, ps.drop_last()), ps.last())
    }
}

/// What an OWL Lite statement records in an OWL DL ontology.
pub open spec fn lite_effect(o: DlOntologyV, a: LiteAxiomV) -> DlOntologyV {
    match a {
        LiteAxiomV::SubClassOf(c1, c2) => collect_ce(collect_ce(o, lite_class_ce(c1)), lite_class_ce(c2)),
        LiteAxiomV::EquivalentClasses(cs) => collect_ces(o, cs.map_values(|c: ClassV| lite_class_ce(c))),
        LiteAxiomV::DisjointClasses(cs) => collect_ces(o, cs.map_values(|c: ClassV| lite_class_ce(c))),
        LiteAxiomV::SubPropertyOf(p1, p2) => collect_pe(collect_pe(o, lite_property_pe(p1)), lite_property_pe(p2)),
        LiteAxiomV::EquivalentProperties(ps) => collect_pes(o, ps.map_values(|p: PropertyV| lite_property_pe(p))),
        LiteAxiomV::ObjectPropertyDomain(p, c) => collect_ce(collect_pe(o, lite_property_pe(p)), lite_class_ce(c)),
        LiteAxiomV::ObjectPropertyRange(p, c) => collect_ce(collect_pe(o, lite_property_pe(p)), lite_class_ce(c)),
        LiteAxiomV::FunctionalProperty(p) => collect_pe(o, lite_property_pe(p)),
        LiteAxiomV::InverseFunctionalProperty(p) => collect_pe(o, lite_property_pe(p)),
        LiteAxiomV::TransitiveProperty(p) => collect_pe(o, lite_property_pe(p)),
        LiteAxiomV::SymmetricProperty(p) => collect_pe(o, lite_property_pe(p)),
        LiteAxiomV::SameIndividual(is) => with_individuals(o, is),
        LiteAxiomV::DifferentIndividuals(is) => with_individuals(o, is),
        LiteAxiomV::ClassAssertion(c, i) => with_individual(collect_ce(o, lite_class_ce(c)), i),
        LiteAxiomV::ObjectPropertyAssertion(p, i1, i2) => with_individual(with_individual(collect_pe(o, lite_property_pe(p)), i1), i2),
        LiteAxiomV::NegativeObjectPropertyAssertion(p, i1, i2) => with_individual(with_individual(collect_pe(o, lite_property_pe(p)), i1), i2),
    }
}

/// What an OWL DL statement records in an ontology, besides itself.
pub open spec fn dl_effect(o: DlOntologyV, a: DlAxiomV) -> DlOntologyV {
    match a {
        DlAxiomV::OwlLite(la) => lite_effect(o, la),
        DlAxiomV::SubClassOf(c1, c2) => collect_ce(collect_ce(o, c1), c2),
        DlAxiomV::EquivalentClasses(cs) => collect_ces(o, cs),
        DlAxiomV::DisjointClasses(cs) => collect_ces(o, cs),
        DlAxiomV::SubPropertyOf(p1, p2) => collect_pe(collect_pe(o, p1), p2),
        DlAxiomV::EquivalentProperties(ps) => collect_pes(o, ps),
        DlAxiomV::ObjectPropertyDomain(p, c) => collect_ce(collect_pe(o, p), c),
        DlAxiomV::ObjectPropertyRange(p, c) => collect_ce(collect_pe(o, p), c),
        DlAxiomV::FunctionalProperty(p) => collect_pe(o, p),
        DlAxiomV::InverseFunctionalProperty(p) => collect_pe(o, p),
        DlAxiomV::TransitiveProperty(p) => collect_pe(o, p),
        DlAxiomV::SymmetricProperty(p) => collect_pe(o, p),
        DlAxiomV::AsymmetricProperty(p) => collect_pe(o, p),
        DlAxiomV::ReflexiveProperty(p) => collect_pe(o, p),
        DlAxiomV::IrreflexiveProperty(p) => collect_pe(o, p),
        DlAxiomV::DisjointProperties(ps) => collect_pes(o, ps),
        DlAxiomV::SameIndividual(is) => with_individuals(o, is),
        DlAxiomV::DifferentIndividuals(is) => with_individuals(o, is),
        DlAxiomV::ClassAssertion(c, i) => with_individual(collect_ce(o, c), i),
        DlAxiomV::ObjectPropertyAssertion(p, i1, i2) => with_individual(with_individual(collect_pe(o, p), i1), i2),
        DlAxiomV::NegativeObjectPropertyAssertion(p, i1, i2) => with_individual(with_individual(collect_pe(o, p), i1), i2),
        DlAxiomV::DataPropertyAssertion(_, i, _) => with_individual(o, i),
        DlAxiomV::NegativeDataPropertyAssertion(_, i, _) => with_individual(o, i),
    }
}

/// `o` lists every class, property and individual that OWL Lite statement
/// `la` mentions.
pub open spec fn lists_mentions(o: DlOntologyV, la: LiteAxiomV) -> bool {
    &&& forall|c: ClassV| crate::lite::model::axiom_classes(la).contains(c) ==> #[trigger] o.classes.contains(c)
    &&& forall|p: PropertyV| crate::lite::model::axiom_properties(la).contains(p) ==> #[trigger] o.properties.contains(p)
    &&& forall|i: Seq<char>| crate::lite::model::axiom_individuals(la).contains(i) ==> #[trigger] o.individuals.contains(i)
}

pub(crate) proof fn lemma_lists_mono(o: DlOntologyV, o2: DlOntologyV, la: LiteAxiomV)
    requires
        lists_mentions(o, la),
        forall|c: ClassV| o.classes.contains(c) ==> #[trigger] o2.classes.contains(c),
        forall|p: PropertyV| o.properties.contains(p) ==> #[trigger] o2.properties.contains(p),
        forall|i: Seq<char>| o.individuals.contains(i) ==> #[trigger] o2.individuals.contains(i),
    ensures
        lists_mentions(o2, la),
{
}

/// Recording the class expression of an OWL Lite class lists the class.
pub(crate) proof fn lemma_lce_lists(o: DlOntologyV, c: ClassV)
    ensures
        keeps_entities(o, collect_ce(o, lite_class_ce(c))),
        collect_ce(o, lite_class_ce(c)).classes.contains(c),
{
    law_collect_ce_records(o, lite_class_ce(c));
    lemma_recorded_lce(collect_ce(o, lite_class_ce(c)), c);
}

proof fn lemma_recorded_lce(o: DlOntologyV, c: ClassV)
    requires
        recorded(o, lite_class_ce(c)),
    ensures
        o.classes.contains(c),
{
    match c {
        ClassV::Named(i) => {},
        ClassV::Thing => {},
        ClassV::Nothing => {},
    }
}

/// Recording the property expression of an OWL Lite property lists the
/// property.
pub(crate) proof fn lemma_lpe_lists(o: DlOntologyV, p: PropertyV)
    ensures
        keeps_entities(o, collect_pe(o, lite_property_pe(p))),
        collect_pe(o, lite_property_pe(p)).properties.contains(p),
{
    lemma_collect_pe_keeps(o, lite_property_pe(p));
    lemma_seq_insert(o.properties, p);
    match p {
        PropertyV::Object(i) => { assert(collect_pe(o, lite_property_pe(p)).properties == with_property(o, p).properties); },
        PropertyV::Data(i) => { assert(collect_pe(o, lite_property_pe(p)).properties == with_property(o, p).properties); },
    }
}

proof fn lemma_lces_lists(o: DlOntologyV, cs: Seq<ClassV>)
    ensures
        keeps_entities(o, collect_ces(o, cs.map_values(|c: ClassV| lite_class_ce(c)))),
        forall|c: ClassV| #[trigger] cs.contains(c) ==> collect_ces(o, cs.map_values(|c: ClassV| lite_class_ce(c))).classes.contains(c),
{
    let es = cs.map_values(|c: ClassV| lite_class_ce(c));
    law_collect_ces_records(o, es);
    assert forall|c: ClassV| #[trigger] cs.contains(c) implies collect_ces(o, es).classes.contains(c) by {
        let k = choose|k: int| 0 <= k < cs.len() && cs[k] == c;
        assert(es[k] == lite_class_ce(c));
        lemma_recorded_lce(collect_ces(o, es), c);
    }
}

proof fn lemma_lpes_lists(o: DlOntologyV, ps: Seq<PropertyV>)
    ensures
        keeps_entities(o, collect_pes(o, ps.map_values(|p: PropertyV| lite_property_pe(p)))),
        forall|p: PropertyV| #[trigger] ps.contains(p) ==> collect_pes(o, ps.map_values(|p: PropertyV| lite_property_pe(p))).properties.contains(p),
    decreases ps.len(),
{
    let es = ps.map_values(|p: PropertyV| lite_property_pe(p));
    if ps.len() == 0 {
        lemma_keeps_refl(o);
    } else {
        let p0 = ps.drop_last();
        lemma_lpes_lists(o, p0);
        assert(es.drop_last() =~= p0.map_values(|p: PropertyV| lite_property_pe(p)));
        let prev = collect_pes(o, es.drop_last());
        lemma_lpe_lists(prev, ps.last());
        assert(es.last() == lite_property_pe(ps.last()));
        lemma_keeps_trans(o, prev, collect_pes(o, es));
        assert forall|p: PropertyV| #[trigger] ps.contains(p) implies collect_pes(o, es).properties.contains(p) by {
            let k = choose|k: int| 0 <= k < ps.len() && ps[k] == p;
            if k < ps.len() - 1 {
                assert(p0[k] == p);
                assert(p0.contains(p));
                assert(prev.properties.contains(p));
            }
        }
    }
}

/// Recording an OWL Lite statement lists every class, property and
/// individual it mentions.
pub(crate) proof fn lemma_lite_effect_lists(o: DlOntologyV, la: LiteAxiomV)
    ensures
        lists_mentions(lite_effect(o, la), la),
{
    lemma_with_keeps(o);
    match la {
        LiteAxiomV::SubClassOf(c1, c2) => {
            let o1 = collect_ce(o, lite_class_ce(c1));
            lemma_lce_lists(o, c1);
            lemma_lce_lists(o1, c2);
            assert forall|c: ClassV| seq![c1, c2].contains(c) implies #[trigger] lite_effect(o, la).classes.contains(c) by {
                let k = choose|k: int| 0 <= k < 2 && seq![c1, c2][k] == c;
            }
        },
        LiteAxiomV::EquivalentClasses(cs) => { lemma_lces_lists(o, cs); },
        LiteAxiomV::DisjointClasses(cs) => { lemma_lces_lists(o, cs); },
        LiteAxiomV::SubPropertyOf(p1, p2) => {
            let o1 = collect_pe(o, lite_property_pe(p1));
            lemma_lpe_lists(o, p1);
            lemma_lpe_lists(o1, p2);
            assert forall|p: PropertyV| seq![p1, p2].contains(p) implies #[trigger] lite_effect(o, la).properties.contains(p) by {
                let k = choose|k: int| 0 <= k < 2 && seq![p1, p2][k] == p;
            }
        },
        LiteAxiomV::EquivalentProperties(ps) => { lemma_lpes_lists(o, ps); },
        LiteAxiomV::ObjectPropertyDomain(p, c) => {
            let o1 = collect_pe(o, lite_property_pe(p));
            lemma_lpe_lists(o, p);
            lemma_lce_lists(o1, c);
            assert forall|x: ClassV| seq![c].contains(x) implies #[trigger] lite_effect(o, la).classes.contains(x) by {
                let k = choose|k: int| 0 <= k < 1 && seq![c][k] == x;
            }
            assert forall|q: PropertyV| seq![p].contains(q) implies #[trigger] lite_effect(o, la).properties.contains(q) by {
                let k = choose|k: int| 0 <= k < 1 && seq![p][k] == q;
            }
        },
        LiteAxiomV::ObjectPropertyRange(p, c) => {
            let o1 = collect_pe(o, lite_property_pe(p));
            lemma_lpe_lists(o, p);
            lemma_lce_lists(o1, c);
            assert forall|x: ClassV| seq![c].contains(x) implies #[trigger] lite_effect(o, la).classes.contains(x) by {
                let k = choose|k: int| 0 <= k < 1 && seq![c][k] == x;
            }
            assert forall|q: PropertyV| seq![p].contains(q) implies #[trigger] lite_effect(o, la).properties.contains(q) by {
                let k = choose|k: int| 0 <= k < 1 && seq![p][k] == q;
            }
        },
        LiteAxiomV::FunctionalProperty(p) => { lemma_lpe_lists_one(o, p); },
        LiteAxiomV::InverseFunctionalProperty(p) => { lemma_lpe_lists_one(o, p); },
        LiteAxiomV::TransitiveProperty(p) => { lemma_lpe_lists_one(o, p); },
        LiteAxiomV::SymmetricProperty(p) => { lemma_lpe_lists_one(o, p); },
        LiteAxiomV::SameIndividual(is) => { lemma_seq_extend(o.individuals, is); },
        LiteAxiomV::DifferentIndividuals(is) => { lemma_seq_extend(o.individuals, is); },
        LiteAxiomV::ClassAssertion(c, i) => {
            let o1 = collect_ce(o, lite_class_ce(c));
            lemma_lce_lists(o, c);
            lemma_individual_lists(o1, i);
            assert forall|x: ClassV| seq![c].contains(x) implies #[trigger] lite_effect(o, la).classes.contains(x) by {
                let k = choose|k: int| 0 <= k < 1 && seq![c][k] == x;
            }
            assert forall|j: Seq<char>| seq![i].contains(j) implies #[trigger] lite_effect(o, la).individuals.contains(j) by {
                let k = choose|k: int| 0 <= k < 1 && seq![i][k] == j;
            }
        },
        LiteAxiomV::ObjectPropertyAssertion(p, i1, i2) => { lemma_assertion_lists(o, p, i1, i2); },
        LiteAxiomV::NegativeObjectPropertyAssertion(p, i1, i2) => { lemma_assertion_lists(o, p, i1, i2); },
    }
}

proof fn lemma_individual_lists(o: DlOntologyV, i: Seq<char>)
    ensures
        with_individual(o, i).individuals.contains(i),
        with_individual(o, i).classes == o.classes,
        with_individual(o, i).properties == o.properties,
        forall|j: Seq<char>| o.individuals.contains(j) ==> #[trigger] with_individual(o, i).individuals.contains(j),
{
    lemma_seq_insert(o.individuals, i);
}

proof fn lemma_lpe_lists_one(o: DlOntologyV, p: PropertyV)
    ensures
        forall|q: PropertyV| seq![p].contains(q) ==> #[trigger] collect_pe(o, lite_property_pe(p)).properties.contains(q),
{
    lemma_lpe_lists(o, p);
    assert forall|q: PropertyV| seq![p].contains(q) implies #[trigger] collect_pe(o, lite_property_pe(p)).properties.contains(q) by {
        let k = choose|k: int| 0 <= k < 1 && seq![p][k] == q;
    }
}

/// A property assertion lists its property and both individuals.
pub(crate) proof fn lemma_assertion_lists(o: DlOntologyV, p: PropertyV, i1: Seq<char>, i2: Seq<char>)
    ensures
        ({
            let r = with_individual(with_individual(collect_pe(o, lite_property_pe(p)), i1), i2);
            &&& forall|q: PropertyV| seq![p].contains(q) ==> #[trigger] r.properties.contains(q)
            &&& forall|j: Seq<char>| seq![i1, i2].contains(j) ==> #[trigger] r.individuals.contains(j)
        }),
{
    let o1 = collect_pe(o, lite_property_pe(p));
    let o2 = with_individual(o1, i1);
    let r = with_individual(o2, i2);
    lemma_lpe_lists_one(o, p);
    lemma_individual_lists(o1, i1);
    lemma_individual_lists(o2, i2);
    assert forall|j: Seq<char>| seq![i1, i2].contains(j) implies #[trigger] r.individuals.contains(j) by {
        let k = choose|k: int| 0 <= k < 2 && seq![i1, i2][k] == j;
    }
}

/// The ontology after statement `a` was added.
pub open spec fn add_dl_axiom_spec(o: DlOntologyV, a: DlAxiomV) -> DlOntologyV {
    DlOntologyV { axioms: o.axioms.push(a), ..dl_effect(o, a) }
}

/// `o2` has the IRI and the statements of `o`, and lists every class,
/// property, individual and expression that `o` lists.
pub open spec fn keeps_entities(o: DlOntologyV, o2: DlOntologyV) -> bool {
    &&& o2.iri == o.iri
    &&& o2.axioms == o.axioms
    &&& forall|c: ClassV| o.classes.contains(c) ==> #[trigger] o2.classes.contains(c)
    &&& forall|p: PropertyV| o.properties.contains(p) ==> #[trigger] o2.properties.contains(p)
    &&& forall|i: Seq<char>| o.individuals.contains(i) ==> #[trigger] o2.individuals.contains(i)
    &&& forall|e: ClassExpressionV| o.class_expressions.contains(e) ==> #[trigger] o2.class_expressions.contains(e)
    &&& forall|e: PropertyExpressionV| o.property_expressions.contains(e) ==> #[trigger] o2.property_expressions.contains(e)
}

/// `o` records `e`: the expression and each of its parts is listed, each
/// named class, owl:Thing or owl:Nothing among them is a listed class, and
/// each individual of a OneOf or HasValue is a listed individual.
pub open spec fn recorded(o: DlOntologyV, e: ClassExpressionV) -> bool
    decreases e,
{
    &&& o.class_expressions.contains(e)
    &&& match e {
        ClassExpressionV::Named(i) => o.classes.contains(ClassV::Named(i)),
        ClassExpressionV::Thing => o.classes.contains(ClassV::Thing),
        ClassExpressionV::Nothing => o.classes.contains(ClassV::Nothing),
        ClassExpressionV::IntersectionOf(cs) => forall|k: int| 0 <= k < cs.len() ==> recorded(o, #[trigger] cs[k]),
        ClassExpressionV::UnionOf(cs) => forall|k: int| 0 <= k < cs.len() ==> recorded(o, #[trigger] cs[k]),
        ClassExpressionV::ComplementOf(b) => recorded(o, *b),
        ClassExpressionV::OneOf(is) => forall|k: int| 0 <= k < is.len() ==> o.individuals.contains(#[trigger] is[k]),
        ClassExpressionV::SomeValuesFrom(_, b) => recorded(o, *b),
        ClassExpressionV::AllValuesFrom(_, b) => recorded(o, *b),
        ClassExpressionV::HasValue(_, i) => o.individuals.contains(i),
        ClassExpressionV::MinCardinality(_, _, c) => match c { Some(b) => recorded(o, *b), None => true },
        ClassExpressionV::MaxCardinality(_, _, c) => match c { Some(b) => recorded(o, *b), None => true },
        ClassExpressionV::ExactCardinality(_, _, c) => match c { Some(b) => recorded(o, *b), None => true },
    }
}

pub(crate) proof fn lemma_keeps_trans(o1: DlOntologyV, o2: DlOntologyV, o3: DlOntologyV)
    requires
        keeps_entities(o1, o2),
        keeps_entities(o2, o3),
    ensures
        keeps_entities(o1, o3),
{
}

pub(crate) proof fn lemma_keeps_refl(o: DlOntologyV)
    ensures
        keeps_entities(o, o),
{
}

/// What an ontology records stays recorded while it keeps its entities.
proof fn lemma_recorded_mono(o: DlOntologyV, o2: DlOntologyV, e: ClassExpressionV)
    requires
        recorded(o, e),
        keeps_entities(o, o2),
    ensures
        recorded(o2, e),
    decreases e,
{
    match e {
        ClassExpressionV::IntersectionOf(cs) => {
            assert forall|k: int| 0 <= k < cs.len() implies recorded(o2, #[trigger] cs[k]) by {
                lemma_recorded_mono(o, o2, cs[k]);
            }
        },
        ClassExpressionV::UnionOf(cs) => {
            assert forall|k: int| 0 <= k < cs.len() implies recorded(o2, #[trigger] cs[k]) by {
                lemma_recorded_mono(o, o2, cs[k]);
            }
        },
        ClassExpressionV::ComplementOf(b) => { lemma_recorded_mono(o, o2, *b); },
        ClassExpressionV::SomeValuesFrom(_, b) => { lemma_recorded_mono(o, o2, *b); },
        ClassExpressionV::AllValuesFrom(_, b) => { lemma_recorded_mono(o, o2, *b); },
        ClassExpressionV::MinCardinality(_, _, c) => { if let Some(b) = c { lemma_recorded_mono(o, o2, *b); } },
        ClassExpressionV::MaxCardinality(_, _, c) => { if let Some(b) = c { lemma_recorded_mono(o, o2, *b); } },
        ClassExpressionV::ExactCardinality(_, _, c) => { if let Some(b) = c { lemma_recorded_mono(o, o2, *b); } },
        _ => {},
    }
}

proof fn lemma_with_keeps(o: DlOntologyV)
    ensures
        forall|c: ClassV| #[trigger] keeps_entities(o, with_class(o, c)) && with_class(o, c).classes.contains(c),
        forall|p: PropertyV| #[trigger] keeps_entities(o, with_property(o, p)) && with_property(o, p).properties.contains(p),
        forall|i: Seq<char>| #[trigger] keeps_entities(o, with_individual(o, i)) && with_individual(o, i).individuals.contains(i),
        forall|is: Seq<Seq<char>>| #[trigger] keeps_entities(o, with_individuals(o, is))
            && forall|k: int| 0 <= k < is.len() ==> with_individuals(o, is).individuals.contains(#[trigger] is[k]),
{
    assert forall|c: ClassV| #[trigger] keeps_entities(o, with_class(o, c)) && with_class(o, c).classes.contains(c) by {
        lemma_seq_insert(o.classes, c);
    }
    assert forall|p: PropertyV| #[trigger] keeps_entities(o, with_property(o, p)) && with_property(o, p).properties.contains(p) by {
        lemma_seq_insert(o.properties, p);
    }
    assert forall|i: Seq<char>| #[trigger] keeps_entities(o, with_individual(o, i)) && with_individual(o, i).individuals.contains(i) by {
        lemma_seq_insert(o.individuals, i);
    }
    assert forall|is: Seq<Seq<char>>| #[trigger] keeps_entities(o, with_individuals(o, is))
        && forall|k: int| 0 <= k < is.len() ==> with_individuals(o, is).individuals.contains(#[trigger] is[k]) by {
        lemma_seq_extend(o.individuals, is);
        assert forall|k: int| 0 <= k < is.len() implies with_individuals(o, is).individuals.contains(#[trigger] is[k]) by {
            assert(is.contains(is[k]));
        }
    }
}

/// Recording a class expression keeps everything the ontology had, and
/// records the expression with all its parts.
pub proof fn law_collect_ce_records(o: DlOntologyV, e: ClassExpressionV)
    ensures
        keeps_entities(o, collect_ce(o, e)),
        recorded(collect_ce(o, e), e),
    decreases e, 1int,
{
    lemma_with_keeps(o);
    let o1 = match e {
        ClassExpressionV::Named(i) => with_class(o, ClassV::Named(i)),
        ClassExpressionV::Thing => with_class(o, ClassV::Thing),
        ClassExpressionV::Nothing => with_class(o, ClassV::Nothing),
        ClassExpressionV::IntersectionOf(cs) => collect_ces(o, cs),
        ClassExpressionV::UnionOf(cs) => collect_ces(o, cs),
        ClassExpressionV::ComplementOf(b) => collect_ce(o, *b),
        ClassExpressionV::OneOf(is) => with_individuals(o, is),
        ClassExpressionV::SomeValuesFrom(_, b) => collect_ce(o, *b),
        ClassExpressionV::AllValuesFrom(_, b) => collect_ce(o, *b),
        ClassExpressionV::HasValue(_, i) => with_individual(o, i),
        ClassExpressionV::MinCardinality(_, _, c) => match c { Some(b) => collect_ce(o, *b), None => o },
        ClassExpressionV::MaxCardinality(_, _, c) => match c { Some(b) => collect_ce(o, *b), None => o },
        ClassExpressionV::ExactCardinality(_, _, c) => match c { Some(b) => collect_ce(o, *b), None => o },
    };
    let r = collect_ce(o, e);
    assert(r == DlOntologyV { class_expressions: seq_insert(o1.class_expressions, e), ..o1 });
    lemma_seq_insert(o1.class_expressions, e);
    assert(keeps_entities(o1, r));
    match e {
        ClassExpressionV::IntersectionOf(cs) => {
            law_collect_ces_records(o, cs);
            assert forall|k: int| 0 <= k < cs.len() implies recorded(r, #[trigger] cs[k]) by {
                lemma_recorded_mono(o1, r, cs[k]);
            }
        },
        ClassExpressionV::UnionOf(cs) => {
            law_collect_ces_records(o, cs);
            assert forall|k: int| 0 <= k < cs.len() implies recorded(r, #[trigger] cs[k]) by {
                lemma_recorded_mono(o1, r, cs[k]);
            }
        },
        ClassExpressionV::ComplementOf(b) => { law_collect_ce_records(o, *b); lemma_recorded_mono(o1, r, *b); },
        ClassExpressionV::SomeValuesFrom(_, b) => { law_collect_ce_records(o, *b); lemma_recorded_mono(o1, r, *b); },
        ClassExpressionV::AllValuesFrom(_, b) => { law_collect_ce_records(o, *b); lemma_recorded_mono(o1, r, *b); },
        ClassExpressionV::MinCardinality(_, _, c) => { if let Some(b) = c { law_collect_ce_records(o, *b); lemma_recorded_mono(o1, r, *b); } },
        ClassExpressionV::MaxCardinality(_, _, c) => { if let Some(b) = c { law_collect_ce_records(o, *b); lemma_recorded_mono(o1, r, *b); } },
        ClassExpressionV::ExactCardinality(_, _, c) => { if let Some(b) = c { law_collect_ce_records(o, *b); lemma_recorded_mono(o1, r, *b); } },
        ClassExpressionV::Named(i) => { assert(keeps_entities(o, with_class(o, ClassV::Named(i)))); },
        ClassExpressionV::Thing => { assert(keeps_entities(o, with_class(o, ClassV::Thing))); },
        ClassExpressionV::Nothing => { assert(keeps_entities(o, with_class(o, ClassV::Nothing))); },
        ClassExpressionV::OneOf(is) => {
            assert(keeps_entities(o, with_individuals(o, is)));
            assert forall|k: int| 0 <= k < is.len() implies r.individuals.contains(#[trigger] is[k]) by {
                assert(o1.individuals.contains(is[k]));
            }
        },
        ClassExpressionV::HasValue(_, i) => { assert(keeps_entities(o, with_individual(o, i))); },
    }
    assert(r.class_expressions.contains(e));
    lemma_keeps_trans(o, o1, r);
}

/// Recording a list of class expressions keeps everything the ontology
/// had, and records each of them.
pub proof fn law_collect_ces_records(o: DlOntologyV, cs: Seq<ClassExpressionV>)
    ensures
        keeps_entities(o, collect_ces(o, cs)),
        forall|k: int| 0 <= k < cs.len() ==> recorded(collect_ces(o, cs), #[trigger] cs[k]),
    decreases cs, 0int,
{
    if cs.len() == 0 {
        lemma_keeps_refl(o);
    } else {
        let prev = collect_ces(o, cs.drop_last());
        law_collect_ces_records(o, cs.drop_last());
        law_collect_ce_records(prev, cs.last());
        let r = collect_ces(o, cs);
        lemma_keeps_trans(o, prev, r);
        assert forall|k: int| 0 <= k < cs.len() implies recorded(r, #[trigger] cs[k]) by {
            if k < cs.len() - 1 {
                assert(cs.drop_last()[k] == cs[k]);
                lemma_recorded_mono(prev, r, cs[k]);
            }
        }
    }
}

pub(crate) proof fn lemma_collect_pe_keeps(o: DlOntologyV, p: PropertyExpressionV)
    ensures
        keeps_entities(o, collect_pe(o, p)),
    decreases p,
{
    lemma_with_keeps(o);
    let o1 = match p {
        PropertyExpressionV::ObjectProperty(i) => with_property(o, PropertyV::Object(i)),
        PropertyExpressionV::DataProperty(i) => with_property(o, PropertyV::Data(i)),
        PropertyExpressionV::InverseOf(b) => collect_pe(o, *b),
    };
    match p {
        PropertyExpressionV::ObjectProperty(i) => { assert(keeps_entities(o, with_property(o, PropertyV::Object(i)))); },
        PropertyExpressionV::DataProperty(i) => { assert(keeps_entities(o, with_property(o, PropertyV::Data(i)))); },
        PropertyExpressionV::InverseOf(b) => { lemma_collect_pe_keeps(o, *b); },
    }
    lemma_seq_insert(o1.property_expressions, p);
    lemma_keeps_trans(o, o1, collect_pe(o, p));
}

proof fn lemma_collect_pes_keeps(o: DlOntologyV, ps: Seq<PropertyExpressionV>)
    ensures
        keeps_entities(o, collect_pes(o, ps)),
    decreases ps.len(),
{
    if ps.len() == 0 {
        lemma_keeps_refl(o);
    } else {
        let prev = collect_pes(o, ps.drop_last());
        lemma_collect_pes_keeps(o, ps.drop_last());
        lemma_collect_pe_keeps(prev, ps.last());
        lemma_keeps_trans(o, prev, collect_pes(o, ps));
    }
}

proof fn lemma_ce_keeps(o: DlOntologyV, e: ClassExpressionV)
    ensures
        keeps_entities(o, collect_ce(o, e)),
{
    law_collect_ce_records(o, e);
}

proof fn lemma_ces_keeps(o: DlOntologyV, cs: Seq<ClassExpressionV>)
    ensures
        keeps_entities(o, collect_ces(o, cs)),
{
    law_collect_ces_records(o, cs);
}

proof fn lemma_two_ind_keeps(o: DlOntologyV, i1: Seq<char>, i2: Seq<char>)
    ensures
        keeps_entities(o, with_individual(with_individual(o, i1), i2)),
{
    lemma_with_keeps(o);
    assert(keeps_entities(o, with_individual(o, i1)));
    let o1 = with_individual(o, i1);
    lemma_with_keeps(o1);
    assert(keeps_entities(o1, with_individual(o1, i2)));
    lemma_keeps_trans(o, o1, with_individual(o1, i2));
}

proof fn lemma_lite_effect_keeps(o: DlOntologyV, a: LiteAxiomV)
    ensures
        keeps_entities(o, lite_effect(o, a)),
{
    lemma_with_keeps(o);
    match a {
        LiteAxiomV::SubClassOf(c1, c2) => {
            let o1 = collect_ce(o, lite_class_ce(c1));
            lemma_ce_keeps(o, lite_class_ce(c1));
            lemma_ce_keeps(o1, lite_class_ce(c2));
            lemma_keeps_trans(o, o1, collect_ce(o1, lite_class_ce(c2)));
        },
        LiteAxiomV::EquivalentClasses(cs) => { lemma_ces_keeps(o, cs.map_values(|c: ClassV| lite_class_ce(c))); },
        LiteAxiomV::DisjointClasses(cs) => { lemma_ces_keeps(o, cs.map_values(|c: ClassV| lite_class_ce(c))); },
        LiteAxiomV::SubPropertyOf(p1, p2) => {
            let o1 = collect_pe(o, lite_property_pe(p1));
            lemma_collect_pe_keeps(o, lite_property_pe(p1));
            lemma_collect_pe_keeps(o1, lite_property_pe(p2));
            lemma_keeps_trans(o, o1, collect_pe(o1, lite_property_pe(p2)));
        },
        LiteAxiomV::EquivalentProperties(ps) => { lemma_collect_pes_keeps(o, ps.map_values(|p: PropertyV| lite_property_pe(p))); },
        LiteAxiomV::ObjectPropertyDomain(p, c) => {
            let o1 = collect_pe(o, lite_property_pe(p));
            lemma_collect_pe_keeps(o, lite_property_pe(p));
            lemma_ce_keeps(o1, lite_class_ce(c));
            lemma_keeps_trans(o, o1, collect_ce(o1, lite_class_ce(c)));
        },
        LiteAxiomV::ObjectPropertyRange(p, c) => {
            let o1 = collect_pe(o, lite_property_pe(p));
            lemma_collect_pe_keeps(o, lite_property_pe(p));
            lemma_ce_keeps(o1, lite_class_ce(c));
            lemma_keeps_trans(o, o1, collect_ce(o1, lite_class_ce(c)));
        },
        LiteAxiomV::FunctionalProperty(p) => { lemma_collect_pe_keeps(o, lite_property_pe(p)); },
        LiteAxiomV::InverseFunctionalProperty(p) => { lemma_collect_pe_keeps(o, lite_property_pe(p)); },
        LiteAxiomV::TransitiveProperty(p) => { lemma_collect_pe_keeps(o, lite_property_pe(p)); },
        LiteAxiomV::SymmetricProperty(p) => { lemma_collect_pe_keeps(o, lite_property_pe(p)); },
        LiteAxiomV::SameIndividual(is) => { assert(keeps_entities(o, with_individuals(o, is))); },
        LiteAxiomV::DifferentIndividuals(is) => { assert(keeps_entities(o, with_individuals(o, is))); },
        LiteAxiomV::ClassAssertion(c, i) => {
            let o1 = collect_ce(o, lite_class_ce(c));
            lemma_ce_keeps(o, lite_class_ce(c));
            lemma_with_keeps(o1);
            assert(keeps_entities(o1, with_individual(o1, i)));
            lemma_keeps_trans(o, o1, with_individual(o1, i));
        },
        LiteAxiomV::ObjectPropertyAssertion(p, i1, i2) => {
            let o1 = collect_pe(o, lite_property_pe(p));
            lemma_collect_pe_keeps(o, lite_property_pe(p));
            lemma_two_ind_keeps(o1, i1, i2);
            lemma_keeps_trans(o, o1, with_individual(with_individual(o1, i1), i2));
        },
        LiteAxiomV::NegativeObjectPropertyAssertion(p, i1, i2) => {
            let o1 = collect_pe(o, lite_property_pe(p));
            lemma_collect_pe_keeps(o, lite_property_pe(p));
            lemma_two_ind_keeps(o1, i1, i2);
            lemma_keeps_trans(o, o1, with_individual(with_individual(o1, i1), i2));
        },
    }
}

/// Adding a statement appends it after the earlier ones in their order,
/// keeps the IRI, and keeps every class, property, individual and
/// expression the ontology listed.
pub proof fn law_add_axiom_keeps(o: DlOntologyV, a: DlAxiomV)
    ensures
        add_dl_axiom_spec(o, a).axioms == o.axioms.push(a),
        add_dl_axiom_spec(o, a).iri == o.iri,
        keeps_entities(o, DlOntologyV { axioms: o.axioms, ..add_dl_axiom_spec(o, a) }),
{
    lemma_with_keeps(o);
    match a {
        DlAxiomV::OwlLite(la) => { lemma_lite_effect_keeps(o, la); },
        DlAxiomV::SubClassOf(c1, c2) => {
            let o1 = collect_ce(o, c1);
            lemma_ce_keeps(o, c1);
            lemma_ce_keeps(o1, c2);
            lemma_keeps_trans(o, o1, collect_ce(o1, c2));
        },
        DlAxiomV::EquivalentClasses(cs) => { lemma_ces_keeps(o, cs); },
        DlAxiomV::DisjointClasses(cs) => { lemma_ces_keeps(o, cs); },
        DlAxiomV::SubPropertyOf(p1, p2) => {
            let o1 = collect_pe(o, p1);
            lemma_collect_pe_keeps(o, p1);
            lemma_collect_pe_keeps(o1, p2);
            lemma_keeps_trans(o, o1, collect_pe(o1, p2));
        },
        DlAxiomV::EquivalentProperties(ps) => { lemma_collect_pes_keeps(o, ps); },
        DlAxiomV::ObjectPropertyDomain(p, c) => {
            let o1 = collect_pe(o, p);
            lemma_collect_pe_keeps(o, p);
            lemma_ce_keeps(o1, c);
            lemma_keeps_trans(o, o1, collect_ce(o1, c));
        },
        DlAxiomV::ObjectPropertyRange(p, c) => {
            let o1 = collect_pe(o, p);
            lemma_collect_pe_keeps(o, p);
            lemma_ce_keeps(o1, c);
            lemma_keeps_trans(o, o1, collect_ce(o1, c));
        },
        DlAxiomV::FunctionalProperty(p) => { lemma_collect_pe_keeps(o, p); },
        DlAxiomV::InverseFunctionalProperty(p) => { lemma_collect_pe_keeps(o, p); },
        DlAxiomV::TransitiveProperty(p) => { lemma_collect_pe_keeps(o, p); },
        DlAxiomV::SymmetricProperty(p) => { lemma_collect_pe_keeps(o, p); },
        DlAxiomV::AsymmetricProperty(p) => { lemma_collect_pe_keeps(o, p); },
        DlAxiomV::ReflexiveProperty(p) => { lemma_collect_pe_keeps(o, p); },
        DlAxiomV::IrreflexiveProperty(p) => { lemma_collect_pe_keeps(o, p); },
        DlAxiomV::DisjointProperties(ps) => { lemma_collect_pes_keeps(o, ps); },
        DlAxiomV::SameIndividual(is) => { assert(keeps_entities(o, with_individuals(o, is))); },
        DlAxiomV::DifferentIndividuals(is) => { assert(keeps_entities(o, with_individuals(o, is))); },
        DlAxiomV::ClassAssertion(c, i) => {
            let o1 = collect_ce(o, c);
            lemma_ce_keeps(o, c);
            lemma_with_keeps(o1);
            assert(keeps_entities(o1, with_individual(o1, i)));
            lemma_keeps_trans(o, o1, with_individual(o1, i));
        },
        DlAxiomV::ObjectPropertyAssertion(p, i1, i2) => {
            let o1 = collect_pe(o, p);
            lemma_collect_pe_keeps(o, p);
            lemma_two_ind_keeps(o1, i1, i2);
            lemma_keeps_trans(o, o1, with_individual(with_individual(o1, i1), i2));
        },
        DlAxiomV::NegativeObjectPropertyAssertion(p, i1, i2) => {
            let o1 = collect_pe(o, p);
            lemma_collect_pe_keeps(o, p);
            lemma_two_ind_keeps(o1, i1, i2);
            lemma_keeps_trans(o, o1, with_individual(with_individual(o1, i1), i2));
        },
        DlAxiomV::DataPropertyAssertion(_, i, _) => { assert(keeps_entities(o, with_individual(o, i))); },
        DlAxiomV::NegativeDataPropertyAssertion(_, i, _) => { assert(keeps_entities(o, with_individual(o, i))); },
    }
}

/// OWL DL ontology.
#[derive(Debug)]
pub struct OwlDlOntology {
    pub iri: Option<OwlIri>,
    pub axioms: Vec<Axiom>,
    /// Named classes, owl:Thing and owl:Nothing as mentioned, each once
    pub classes: Vec<Class>,
    pub properties: Vec<Property>,
    pub individuals: Vec<Individual>,
    pub class_expressions: Vec<ClassExpression>,
    pub property_expressions: Vec<PropertyExpression>,
}

impl OwlDlOntology {
    pub open spec fn view_of(&self) -> DlOntologyV {
        DlOntologyV {
            iri: match self.iri { Some(i) => Some(i.0@), None => None },
            axioms: dl_axiom_views(self.axioms@),
            classes: node_views(self.classes@),
            properties: node_views(self.properties@),
            individuals: node_views(self.individuals@),
            class_expressions: node_views(self.class_expressions@),
            property_expressions: node_views(self.property_expressions@),
        }
    }

    /// Nothing is listed twice.
    pub open spec fn wf(&self) -> bool {
        &&& distinct(node_views(self.classes@))
        &&& distinct(node_views(self.properties@))
        &&& distinct(node_views(self.individuals@))
        &&& distinct(node_views(self.class_expressions@))
        &&& distinct(node_views(self.property_expressions@))
    }

    /// An empty ontology without IRI.
    pub fn new() -> (r: Self)
        ensures
            r.wf(),
            r.view_of() == (DlOntologyV { iri: None, axioms: Seq::empty(), classes: Seq::empty(), properties: Seq::empty(),
                individuals: Seq::empty(), class_expressions: Seq::empty(), property_expressions: Seq::empty() }),
    {
        let r = OwlDlOntology { iri: None, axioms: Vec::new(), classes: Vec::new(), properties: Vec::new(), individuals: Vec::new(),
            class_expressions: Vec::new(), property_expressions: Vec::new() };
        proof {
            assert(dl_axiom_views(r.axioms@) =~= Seq::empty());
            assert(node_views(r.classes@) =~= Seq::empty());
            assert(node_views(r.properties@) =~= Seq::empty());
            assert(node_views(r.individuals@) =~= Seq::empty());
            assert(node_views(r.class_expressions@) =~= Seq::empty());
            assert(node_views(r.property_expressions@) =~= Seq::empty());
        }
        r
    }

    /// An empty ontology with an IRI.
    pub fn with_iri(iri: OwlIri) -> (r: Self)
        ensures
            r.wf(),
            r.view_of() == (DlOntologyV { iri: Some(iri.0@), axioms: Seq::empty(), classes: Seq::empty(), properties: Seq::empty(),
                individuals: Seq::empty(), class_expressions: Seq::empty(), property_expressions: Seq::empty() }),
    {
        let mut r = Self::new();
        r.iri = Some(iri);
        r
    }

    /// An OWL Lite class as a class expression.
    pub fn owl_lite_class_to_expression(class: Class) -> (r: ClassExpression)
        ensures
            ce_view(r) == lite_class_ce(class.view_of()),
    {
        match class {
            Class::Named(iri) => ClassExpression::Named(iri),
            Class::Thing => ClassExpression::Thing,
            Class::Nothing => ClassExpression::Nothing,
        }
    }

    /// An OWL Lite property as a property expression.
    pub fn owl_lite_property_to_expression(property: Property) -> (r: PropertyExpression)
        ensures
            pe_view(r) == lite_property_pe(property.view_of()),
    {
        match property {
            Property::Object(iri) => PropertyExpression::ObjectProperty(iri),
            Property::Data(iri) => PropertyExpression::DataProperty(iri),
        }
    }

    /// Record a class expression, its parts and what they mention.
    pub fn add_class_expression(&mut self, expr: &ClassExpression)
        ensures
            final(self).view_of() == collect_ce(old(self).view_of(), ce_view(*expr)),
            old(self).wf() ==> final(self).wf(),
            final(self).axioms == old(self).axioms,
            final(self).iri == old(self).iri,
    {
        self.collect_class_expressions(expr);
    }

    /// Record a property expression, its parts and what they mention.
    pub fn add_property_expression(&mut self, expr: &PropertyExpression)
        ensures
            final(self).view_of() == collect_pe(old(self).view_of(), pe_view(*expr)),
            old(self).wf() ==> final(self).wf(),
            final(self).axioms == old(self).axioms,
            final(self).iri == old(self).iri,
    {
        self.collect_property_expressions(expr);
    }

    /// Append a statement and record the classes, properties, individuals
    /// and expressions it mentions.
    pub fn add_axiom(&mut self, ax: Axiom)
        ensures
            final(self).view_of() == add_dl_axiom_spec(old(self).view_of(), ax.view_of()),
            old(self).wf() ==> final(self).wf(),
    {
        let ghost a = ax.view_of();
        match &ax {
            Axiom::OwlLite(la) => { self.apply_lite(la); },
            Axiom::SubClassOf(c1, c2) => {
                self.add_class_expression(c1);
                self.add_class_expression(c2);
            },
            Axiom::EquivalentClasses(cs) => { self.collect_all_ces(cs); },
            Axiom::DisjointClasses(cs) => { self.collect_all_ces(cs); },
            Axiom::SubPropertyOf(p1, p2) => {
                self.add_property_expression(p1);
                self.add_property_expression(p2);
            },
            Axiom::EquivalentProperties(ps) => { self.collect_all_pes(ps); },
            Axiom::ObjectPropertyDomain(p, c) => {
                self.add_property_expression(p);
                self.add_class_expression(c);
            },
            Axiom::ObjectPropertyRange(p, c) => {
                self.add_property_expression(p);
                self.add_class_expression(c);
            },
            Axiom::FunctionalProperty(p) => { self.add_property_expression(p); },
            Axiom::InverseFunctionalProperty(p) => { self.add_property_expression(p); },
            Axiom::TransitiveProperty(p) => { self.add_property_expression(p); },
            Axiom::SymmetricProperty(p) => { self.add_property_expression(p); },
            Axiom::AsymmetricProperty(p) => { self.add_property_expression(p); },
            Axiom::ReflexiveProperty(p) => { self.add_property_expression(p); },
            Axiom::IrreflexiveProperty(p) => { self.add_property_expression(p); },
            Axiom::DisjointProperties(ps) => { self.collect_all_pes(ps); },
            Axiom::SameIndividual(is) => { self.extend_individuals(is); },
            Axiom::DifferentIndividuals(is) => { self.extend_individuals(is); },
            Axiom::ClassAssertion(c, i) => {
                self.add_class_expression(c);
                self.insert_individual(i.copy_node());
            },
            Axiom::ObjectPropertyAssertion(p, i1, i2) => {
                self.add_property_expression(p);
                self.insert_individual(i1.copy_node());
                self.insert_individual(i2.copy_node());
            },
            Axiom::NegativeObjectPropertyAssertion(p, i1, i2) => {
                self.add_property_expression(p);
                self.insert_individual(i1.copy_node());
                self.insert_individual(i2.copy_node());
            },
            Axiom::DataPropertyAssertion(_, i, _) => { self.insert_individual(i.copy_node()); },
            Axiom::NegativeDataPropertyAssertion(_, i, _) => { self.insert_individual(i.copy_node()); },
        }
        let ghost mid = self.axioms@;
        self.axioms.push(ax);
        proof {
            assert(dl_axiom_views(self.axioms@) =~= dl_axiom_views(mid).push(a));
        }
    }

    fn apply_lite(&mut self, la: &LiteAxiom)
        ensures
            final(self).view_of() == lite_effect(old(self).view_of(), la.view_of()),
            old(self).wf() ==> final(self).wf(),
            final(self).axioms == old(self).axioms,
            final(self).iri == old(self).iri,
    {
        match la {
            LiteAxiom::SubClassOf(c1, c2) => {
                let ce1 = Self::owl_lite_class_to_expression(c1.clone());
                let ce2 = Self::owl_lite_class_to_expression(c2.clone());
                self.add_class_expression(&ce1);
                self.add_class_expression(&ce2);
            },
            LiteAxiom::EquivalentClasses(classes) => { self.collect_lite_classes(classes); },
            LiteAxiom::DisjointClasses(classes) => { self.collect_lite_classes(classes); },
            LiteAxiom::SubPropertyOf(p1, p2) => {
                let pe1 = Self::owl_lite_property_to_expression(p1.clone());
                let pe2 = Self::owl_lite_property_to_expression(p2.clone());
                self.add_property_expression(&pe1);
                self.add_property_expression(&pe2);
            },
            LiteAxiom::EquivalentProperties(properties) => { self.collect_lite_properties(properties); },
            LiteAxiom::ObjectPropertyDomain(p, c) => {
                let pe = Self::owl_lite_property_to_expression(p.clone());
                let ce = Self::owl_lite_class_to_expression(c.clone());
                self.add_property_expression(&pe);
                self.add_class_expression(&ce);
            },
            LiteAxiom::ObjectPropertyRange(p, c) => {
                let pe = Self::owl_lite_property_to_expression(p.clone());
                let ce = Self::owl_lite_class_to_expression(c.clone());
                self.add_property_expression(&pe);
                self.add_class_expression(&ce);
            },
            LiteAxiom::FunctionalProperty(p) => {
                let pe = Self::owl_lite_property_to_expression(p.clone());
                self.add_property_expression(&pe);
            },
            LiteAxiom::InverseFunctionalProperty(p) => {
                let pe = Self::owl_lite_property_to_expression(p.clone());
                self.add_property_expression(&pe);
            },
            LiteAxiom::TransitiveProperty(p) => {
                let pe = Self::owl_lite_property_to_expression(p.clone());
                self.add_property_expression(&pe);
            },
            LiteAxiom::SymmetricProperty(p) => {
                let pe = Self::owl_lite_property_to_expression(p.clone());
                self.add_property_expression(&pe);
            },
            LiteAxiom::SameIndividual(is) => { self.extend_individuals(is); },
            LiteAxiom::DifferentIndividuals(is) => { self.extend_individuals(is); },
            LiteAxiom::ClassAssertion(c, i) => {
                let ce = Self::owl_lite_class_to_expression(c.clone());
                self.add_class_expression(&ce);
                self.insert_individual(i.copy_node());
            },
            LiteAxiom::ObjectPropertyAssertion(p, i1, i2) => {
                let pe = Self::owl_lite_property_to_expression(p.clone());
                self.add_property_expression(&pe);
                self.insert_individual(i1.copy_node());
                self.insert_individual(i2.copy_node());
            },
            LiteAxiom::NegativeObjectPropertyAssertion(p, i1, i2) => {
                let pe = Self::owl_lite_property_to_expression(p.clone());
                self.add_property_expression(&pe);
                self.insert_individual(i1.copy_node());
                self.insert_individual(i2.copy_node());
            },
        }
    }

    fn collect_all_ces(&mut self, v: &Vec<ClassExpression>)
        ensures
            final(self).view_of() == collect_ces(old(self).view_of(), node_views(v@)),
            old(self).wf() ==> final(self).wf(),
            final(self).axioms == old(self).axioms,
            final(self).iri == old(self).iri,
    {
        let ghost vs = node_views(v@);
        let mut i: usize = 0;
        while i < v.len()
            invariant
                i <= v@.len(),
                vs == node_views(v@),
                self.view_of() == collect_ces(old(self).view_of(), vs.take(i as int)),
                old(self).wf() ==> self.wf(),
                self.axioms == old(self).axioms,
                self.iri == old(self).iri,
            decreases v.len() - i,
        {
            proof {
                assert(vs.take(i + 1).drop_last() =~= vs.take(i as int));
                assert(vs.take(i + 1).last() == ce_view(v@[i as int]));
            }
            self.add_class_expression(&v[i]);
            i += 1;
        }
        proof {
            assert(vs.take(vs.len() as int) =~= vs);
        }
    }

    fn collect_all_pes(&mut self, v: &Vec<PropertyExpression>)
        ensures
            final(self).view_of() == collect_pes(old(self).view_of(), node_views(v@)),
            old(self).wf() ==> final(self).wf(),
            final(self).axioms == old(self).axioms,
            final(self).iri == old(self).iri,
    {
        let ghost vs = node_views(v@);
        let mut i: usize = 0;
        while i < v.len()
            invariant
                i <= v@.len(),
                vs == node_views(v@),
                self.view_of() == collect_pes(old(self).view_of(), vs.take(i as int)),
                old(self).wf() ==> self.wf(),
                self.axioms == old(self).axioms,
                self.iri == old(self).iri,
            decreases v.len() - i,
        {
            proof {
                assert(vs.take(i + 1).drop_last() =~= vs.take(i as int));
                assert(vs.take(i + 1).last() == pe_view(v@[i as int]));
            }
            self.add_property_expression(&v[i]);
            i += 1;
        }
        proof {
            assert(vs.take(vs.len() as int) =~= vs);
        }
    }

    fn collect_lite_classes(&mut self, v: &Vec<Class>)
        ensures
            final(self).view_of() == collect_ces(old(self).view_of(), node_views(v@).map_values(|c: ClassV| lite_class_ce(c))),
            old(self).wf() ==> final(self).wf(),
            final(self).axioms == old(self).axioms,
            final(self).iri == old(self).iri,
    {
        let ghost vs = node_views(v@).map_values(|c: ClassV| lite_class_ce(c));
        let mut i: usize = 0;
        while i < v.len()
            invariant
                i <= v@.len(),
                vs == node_views(v@).map_values(|c: ClassV| lite_class_ce(c)),
                self.view_of() == collect_ces(old(self).view_of(), vs.take(i as int)),
                old(self).wf() ==> self.wf(),
                self.axioms == old(self).axioms,
                self.iri == old(self).iri,
            decreases v.len() - i,
        {
            proof {
                assert(vs.take(i + 1).drop_last() =~= vs.take(i as int));
                assert(vs.take(i + 1).last() == lite_class_ce(v@[i as int].view_of()));
            }
            let ce = Self::owl_lite_class_to_expression(v[i].clone());
            self.add_class_expression(&ce);
            i += 1;
        }
        proof {
            assert(vs.take(vs.len() as int) =~= vs);
        }
    }

    fn collect_lite_properties(&mut self, v: &Vec<Property>)
        ensures
            final(self).view_of() == collect_pes(old(self).view_of(), node_views(v@).map_values(|p: PropertyV| lite_property_pe(p))),
            old(self).wf() ==> final(self).wf(),
            final(self).axioms == old(self).axioms,
            final(self).iri == old(self).iri,
    {
        let ghost vs = node_views(v@).map_values(|p: PropertyV| lite_property_pe(p));
        let mut i: usize = 0;
        while i < v.len()
            invariant
                i <= v@.len(),
                vs == node_views(v@).map_values(|p: PropertyV| lite_property_pe(p)),
                self.view_of() == collect_pes(old(self).view_of(), vs.take(i as int)),
                old(self).wf() ==> self.wf(),
                self.axioms == old(self).axioms,
                self.iri == old(self).iri,
            decreases v.len() - i,
        {
            proof {
                assert(vs.take(i + 1).drop_last() =~= vs.take(i as int));
                assert(vs.take(i + 1).last() == lite_property_pe(v@[i as int].view_of()));
            }
            let pe = Self::owl_lite_property_to_expression(v[i].clone());
            self.add_property_expression(&pe);
            i += 1;
        }
        proof {
            assert(vs.take(vs.len() as int) =~= vs);
        }
    }

    fn insert_class(&mut self, c: Class)
        ensures
            final(self).view_of() == with_class(old(self).view_of(), c.view_of()),
            old(self).wf() ==> final(self).wf(),
            final(self).axioms == old(self).axioms,
            final(self).iri == old(self).iri,
    {
        let ghost c0 = node_views(self.classes@);
        insert_node(&mut self.classes, c);
        proof { lemma_seq_insert(c0, c.view_of()); }
    }

    fn insert_individual(&mut self, i: Individual)
        ensures
            final(self).view_of() == with_individual(old(self).view_of(), i.node_view()),
            old(self).wf() ==> final(self).wf(),
            final(self).axioms == old(self).axioms,
            final(self).iri == old(self).iri,
    {
        let ghost i0 = node_views(self.individuals@);
        let ghost iv = i.node_view();
        insert_node(&mut self.individuals, i);
        proof { lemma_seq_insert(i0, iv); }
    }

    fn extend_individuals(&mut self, is: &Vec<Individual>)
        ensures
            final(self).view_of() == with_individuals(old(self).view_of(), node_views(is@)),
            old(self).wf() ==> final(self).wf(),
            final(self).axioms == old(self).axioms,
            final(self).iri == old(self).iri,
    {
        let ghost i0 = node_views(self.individuals@);
        extend_nodes(&mut self.individuals, is);
        proof { lemma_seq_extend(i0, node_views(is@)); }
    }

    fn collect_class_expressions(&mut self, expr: &ClassExpression)
        ensures
            final(self).view_of() == collect_ce(old(self).view_of(), ce_view(*expr)),
            old(self).wf() ==> final(self).wf(),
            final(self).axioms == old(self).axioms,
            final(self).iri == old(self).iri,
        decreases expr, 1int,
    {
        let ghost e = ce_view(*expr);
        match expr {
            ClassExpression::Named(iri) => { self.insert_class(Class::Named(iri.clone())); },
            ClassExpression::Thing => { self.insert_class(Class::Thing); },
            ClassExpression::Nothing => { self.insert_class(Class::Nothing); },
            ClassExpression::IntersectionOf(v) => {
                proof { assert(decreases_to!(*expr => v)); }
                self.collect_list(v, Ghost(*expr));
            },
            ClassExpression::UnionOf(v) => {
                proof { assert(decreases_to!(*expr => v)); }
                self.collect_list(v, Ghost(*expr));
            },
            ClassExpression::ComplementOf(b) => { self.collect_class_expressions(&**b); },
            ClassExpression::OneOf(v) => { self.extend_individuals(v); },
            ClassExpression::SomeValuesFrom { class, .. } => { self.collect_class_expressions(&**class); },
            ClassExpression::AllValuesFrom { class, .. } => { self.collect_class_expressions(&**class); },
            ClassExpression::HasValue { individual, .. } => { self.insert_individual(individual.copy_node()); },
            ClassExpression::MinCardinality { class, .. } => {
                if let Some(c) = class {
                    proof { assert(decreases_to!(*expr => *class)); assert(decreases_to!(*class => class->0)); }
                    self.collect_class_expressions(&**c);
                }
            },
            ClassExpression::MaxCardinality { class, .. } => {
                if let Some(c) = class {
                    proof { assert(decreases_to!(*expr => *class)); assert(decreases_to!(*class => class->0)); }
                    self.collect_class_expressions(&**c);
                }
            },
            ClassExpression::ExactCardinality { class, .. } => {
                if let Some(c) = class {
                    proof { assert(decreases_to!(*expr => *class)); assert(decreases_to!(*class => class->0)); }
                    self.collect_class_expressions(&**c);
                }
            },
        }
        let ghost ce0 = node_views(self.class_expressions@);
        insert_node(&mut self.class_expressions, expr.copy());
        proof { lemma_seq_insert(ce0, e); }
    }

    fn collect_list(&mut self, v: &Vec<ClassExpression>, Ghost(parent): Ghost<ClassExpression>)
        requires
            decreases_to!(parent => *v),
        ensures
            final(self).view_of() == collect_ces(old(self).view_of(), ce_seq_view(v@)),
            old(self).wf() ==> final(self).wf(),
            final(self).axioms == old(self).axioms,
            final(self).iri == old(self).iri,
        decreases parent, 0int,
    {
        let mut i: usize = 0;
        proof {
            assert(ce_seq_view(v@.take(0)) =~= Seq::<ClassExpressionV>::empty());
        }
        while i < v.len()
            invariant
                i <= v@.len(),
                decreases_to!(parent => *v),
                self.view_of() == collect_ces(old(self).view_of(), ce_seq_view(v@.take(i as int))),
                old(self).wf() ==> self.wf(),
                self.axioms == old(self).axioms,
                self.iri == old(self).iri,
            decreases v.len() - i,
        {
            proof {
                assert(decreases_to!(*v => v@));
                assert(decreases_to!(v@ => v@[i as int]));
                assert(v@.take(i + 1).drop_last() =~= v@.take(i as int));
                assert(v@.take(i + 1).last() == v@[i as int]);
            }
            let ghost before = self.view_of();
            self.collect_class_expressions(&v[i]);
            proof {
                let sv1 = ce_seq_view(v@.take(i + 1));
                assert(sv1 == ce_seq_view(v@.take(i as int)).push(ce_view(v@[i as int])));
                assert(sv1.drop_last() =~= ce_seq_view(v@.take(i as int)));
                assert(sv1.last() == ce_view(v@[i as int]));
                assert(collect_ces(old(self).view_of(), sv1) == collect_ce(before, ce_view(v@[i as int])));
            }
            i += 1;
        }
        proof {
            assert(v@.take(v@.len() as int) =~= v@);
        }
    }

    fn collect_property_expressions(&mut self, expr: &PropertyExpression)
        ensures
            final(self).view_of() == collect_pe(old(self).view_of(), pe_view(*expr)),
            old(self).wf() ==> final(self).wf(),
            final(self).axioms == old(self).axioms,
            final(self).iri == old(self).iri,
        decreases expr,
    {
        let ghost p = pe_view(*expr);
        match expr {
            PropertyExpression::ObjectProperty(iri) => {
                let ghost p0 = node_views(self.properties@);
                insert_node(&mut self.properties, Property::Object(iri.clone()));
                proof { lemma_seq_insert(p0, PropertyV::Object(iri.0@)); }
            },
            PropertyExpression::DataProperty(iri) => {
                let ghost p0 = node_views(self.properties@);
                insert_node(&mut self.properties, Property::Data(iri.clone()));
                proof { lemma_seq_insert(p0, PropertyV::Data(iri.0@)); }
            },
            PropertyExpression::InverseOf(b) => { self.collect_property_expressions(&**b); },
        }
        let ghost pe0 = node_views(self.property_expressions@);
        insert_node(&mut self.property_expressions, expr.copy());
        proof { lemma_seq_insert(pe0, p); }
    }
}

} // verus!
