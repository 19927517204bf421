//! OWL DL reasoner: instance checking of class expressions against the
//! stated facts, and conversion to and from OWL Lite ontologies.

use vstd::prelude::*;
use crate::closure::{GraphNode, node_views, distinct, reaches, contains_node, reachable_from, edge_views};
use crate::lite::model::{Ontology, OntologyV, Class, ClassV, Property, PropertyV, Individual, OwlIri, Axiom as LiteAxiom, AxiomV as LiteAxiomV, axiom_views};
use crate::lite::reasoner::OwlLiteReasoner;
use crate::lite::loader::load_spec;
use crate::nodeset::copy_nodes;
use crate::rdf_store::RdfStore;
use super::model::{OwlDlOntology, DlOntologyV, ClassExpression, ClassExpressionV, PropertyExpression, PropertyExpressionV,
    Axiom, DlAxiomV, ce_view, ce_seq_view, pe_view, lemma_ce_seq_view, dl_axiom_views, add_dl_axiom_spec};
use super::tableau::{DlTableauReasoner, DlCompletionGraph, saturated, stated_label, stated_link, stated_same, stated_different, derived_from, gave_up};
use super::OwlDlError;

verus! {

/// The objects of the `p` edges of `i` that `axs` states, in order (OWL
/// Lite object property assertions count for the object property of the
/// same IRI).
pub open spec fn stated_objects(axs: Seq<DlAxiomV>, i: Seq<char>, p: PropertyExpressionV) -> Seq<Seq<char>>
    decreases axs.len(),
{
    if axs.len() == 0 {
        Seq::empty()
    } else {
        let rest = stated_objects(axs.drop_last(), i, p);
        match axs.last() {
            DlAxiomV::ObjectPropertyAssertion(q, s, o) => if q == p && s == i { rest.push(o) } else { rest },
            DlAxiomV::OwlLite(LiteAxiomV::ObjectPropertyAssertion(lp, s, o)) => match lp {
                PropertyV::Object(iri) => if PropertyExpressionV::ObjectProperty(iri) == p && s == i { rest.push(o) } else { rest },
                PropertyV::Data(_) => rest,
            },
            _ => rest,
        }
    }
}

/// The (subclass, superclass) IRIs of the OWL Lite SubClassOf statements
/// between named classes, in order.
pub open spec fn named_subclass_pairs(axs: Seq<DlAxiomV>) -> Seq<(Seq<char>, Seq<char>)>
    decreases axs.len(),
{
    if axs.len() == 0 {
        Seq::empty()
    } else {
        let rest = named_subclass_pairs(axs.drop_last());
        match axs.last() {
            DlAxiomV::OwlLite(LiteAxiomV::SubClassOf(ClassV::Named(a), ClassV::Named(b))) => rest.push((a, b)),
            _ => rest,
        }
    }
}

/// Individual `i` is stated to belong to named class `c0`.
pub open spec fn stated_named(axs: Seq<DlAxiomV>, i: Seq<char>, c0: Seq<char>) -> bool {
    exists|k: int| 0 <= k < axs.len() && axs[k] == DlAxiomV::OwlLite(LiteAxiomV::ClassAssertion(ClassV::Named(c0), i))
}

/// Individual `i` is stated to belong to named class `c`, or to a named
/// class that reaches `c` through SubClassOf statements.
pub open spec fn named_member(axs: Seq<DlAxiomV>, i: Seq<char>, c: Seq<char>) -> bool {
    exists|c0: Seq<char>| #[trigger] stated_named(axs, i, c0) && (c0 == c || reaches(named_subclass_pairs(axs), c0, c))
}

/// Statement `a` puts `i` in a named class that is `c` or reaches it.
pub open spec fn assertion_reaching(a: DlAxiomV, i: Seq<char>, c: Seq<char>, edges: Seq<(Seq<char>, Seq<char>)>) -> bool {
    a matches DlAxiomV::OwlLite(LiteAxiomV::ClassAssertion(ClassV::Named(c0), j)) && j == i && (c0 == c || reaches(edges, c0, c))
}

/// Whether individual `i` is an instance of class expression `c` by the
/// stated facts.
pub open spec fn dl_member(axs: Seq<DlAxiomV>, i: Seq<char>, c: ClassExpressionV) -> bool
    decreases c, 1int, 0int,
{
    match c {
        ClassExpressionV::Named(n) => named_member(axs, i, n),
        ClassExpressionV::Thing => true,
        ClassExpressionV::Nothing => false,
        ClassExpressionV::IntersectionOf(cs) => members_all(axs, i, cs),
        ClassExpressionV::UnionOf(cs) => members_any(axs, i, cs),
        ClassExpressionV::ComplementOf(b) => !dl_member(axs, i, *b),
        ClassExpressionV::OneOf(is) => is.contains(i),
        ClassExpressionV::SomeValuesFrom(p, b) => some_member(axs, stated_objects(axs, i, p), *b),
        ClassExpressionV::AllValuesFrom(p, b) => all_member(axs, stated_objects(axs, i, p), *b),
        ClassExpressionV::HasValue(p, v) => stated_objects(axs, i, p).contains(v),
        ClassExpressionV::MinCardinality(n, p, o) => (match o {
            Some(b) => count_members(axs, stated_objects(axs, i, p), *b),
            None => stated_objects(axs, i, p).len(),
        }) >= n,
        ClassExpressionV::MaxCardinality(n, p, o) => (match o {
            Some(b) => count_members(axs, stated_objects(axs, i, p), *b),
            None => stated_objects(axs, i, p).len(),
        }) <= n,
        ClassExpressionV::ExactCardinality(n, p, o) => (match o {
            Some(b) => count_members(axs, stated_objects(axs, i, p), *b),
            None => stated_objects(axs, i, p).len(),
        }) == n,
    }
}

/// `i` is an instance of every expression of `cs`.
pub open spec fn members_all(axs: Seq<DlAxiomV>, i: Seq<char>, cs: Seq<ClassExpressionV>) -> bool
    decreases cs, 0int, 0int,
{
    cs.len() == 0 || (members_all(axs, i, cs.drop_last()) && dl_member(axs, i, cs.last()))
}

/// `i` is an instance of some expression of `cs`.
pub open spec fn members_any(axs: Seq<DlAxiomV>, i: Seq<char>, cs: Seq<ClassExpressionV>) -> bool
    decreases cs, 0int, 0int,
{
    cs.len() > 0 && (members_any(axs, i, cs.drop_last()) || dl_member(axs, i, cs.last()))
}

/// Some individual of `objs` is an instance of `c`.
pub open spec fn some_member(axs: Seq<DlAxiomV>, objs: Seq<Seq<char>>, c: ClassExpressionV) -> bool
    decreases c, 2int, objs.len(),
{
    objs.len() > 0 && (some_member(axs, objs.drop_last(), c) || dl_member(axs, objs.last(), c))
}

/// Every individual of `objs` is an instance of `c`.
pub open spec fn all_member(axs: Seq<DlAxiomV>, objs: Seq<Seq<char>>, c: ClassExpressionV) -> bool
    decreases c, 2int, objs.len(),
{
    objs.len() == 0 || (all_member(axs, objs.drop_last(), c) && dl_member(axs, objs.last(), c))
}

/// How many entries of `objs` are instances of `c`.
pub open spec fn count_members(axs: Seq<DlAxiomV>, objs: Seq<Seq<char>>, c: ClassExpressionV) -> nat
    decreases c, 2int, objs.len(),
{
    if objs.len() == 0 {
        0
    } else {
        count_members(axs, objs.drop_last(), c) + if dl_member(axs, objs.last(), c) { 1nat } else { 0nat }
    }
}

/// The OWL Lite statements of an OWL DL ontology, and the OWL DL ones that
/// OWL Lite can state: SubClassOf between named classes, class assertions
/// of named classes and assertions of object properties.
pub open spec fn lite_part(a: DlAxiomV) -> Option<LiteAxiomV> {
    match a {
        DlAxiomV::OwlLite(la) => Some(la),
        DlAxiomV::SubClassOf(ClassExpressionV::Named(s), ClassExpressionV::Named(t)) => Some(LiteAxiomV::SubClassOf(ClassV::Named(s), ClassV::Named(t))),
        DlAxiomV::ClassAssertion(ClassExpressionV::Named(c), i) => Some(LiteAxiomV::ClassAssertion(ClassV::Named(c), i)),
        DlAxiomV::ObjectPropertyAssertion(PropertyExpressionV::ObjectProperty(p), i1, i2) => Some(LiteAxiomV::ObjectPropertyAssertion(PropertyV::Object(p), i1, i2)),
        _ => None,
    }
}

/// The OWL Lite ontology after the convertible statements of `axs` were
/// added to `o` in order.
pub open spec fn to_lite_spec(o: OntologyV, axs: Seq<DlAxiomV>) -> OntologyV
    decreases axs.len(),
{
    if axs.len() == 0 {
        o
    } else {
        let prev = to_lite_spec(o, axs.drop_last());
        match lite_part(axs.last()) {
            Some(la) => crate::lite::model::add_axiom_spec(prev, la),
            None => prev,
        }
    }
}

/// The OWL Lite forms of the convertible statements of `axs`, in order.
pub open spec fn lite_parts(axs: Seq<DlAxiomV>) -> Seq<LiteAxiomV>
    decreases axs.len(),
{
    if axs.len() == 0 {
        Seq::empty()
    } else {
        match lite_part(axs.last()) {
            Some(la) => lite_parts(axs.drop_last()).push(la),
            None => lite_parts(axs.drop_last()),
        }
    }
}

/// Every class, property and individual that a convertible statement of
/// `axs` mentions is already listed in `o`.
pub open spec fn lite_mentions_listed(o: OntologyV, axs: Seq<DlAxiomV>) -> bool {
    forall|k: int| 0 <= k < axs.len() ==> (#[trigger] lite_part(axs[k]) matches Some(la) ==> (
        (forall|c: ClassV| crate::lite::model::axiom_classes(la).contains(c) ==> o.classes.contains(c))
        && (forall|p: PropertyV| crate::lite::model::axiom_properties(la).contains(p) ==> o.properties.contains(p))
        && (forall|i: Seq<char>| crate::lite::model::axiom_individuals(la).contains(i) ==> o.individuals.contains(i))))
}

proof fn lemma_extend_listed<V>(s: Seq<V>, xs: Seq<V>)
    requires
        forall|x: V| xs.contains(x) ==> s.contains(x),
    ensures
        crate::nodeset::seq_extend(s, xs) == s,
    decreases xs.len(),
{
    if xs.len() > 0 {
        assert forall|x: V| xs.drop_last().contains(x) implies s.contains(x) by {
            let w = choose|w: int| 0 <= w < xs.drop_last().len() && xs.drop_last()[w] == x;
            assert(xs[w] == x);
        }
        lemma_extend_listed(s, xs.drop_last());
        assert(xs.contains(xs.last()));
    }
}

/// Converting to OWL Lite keeps the IRI and, when the convertible
/// statements mention only listed entities, the lists of classes,
/// properties and individuals; its statements are the earlier ones followed
/// by the OWL Lite forms of the convertible statements, in order; the
/// others are dropped.
pub proof fn law_to_lite_keeps_lists(o: OntologyV, axs: Seq<DlAxiomV>)
    requires
        lite_mentions_listed(o, axs),
    ensures
        to_lite_spec(o, axs) == (OntologyV { axioms: o.axioms + lite_parts(axs), ..o }),
    decreases axs.len(),
{
    if axs.len() == 0 {
        assert(o.axioms + Seq::<LiteAxiomV>::empty() =~= o.axioms);
    } else {
        let p = axs.drop_last();
        assert(lite_mentions_listed(o, p)) by {
            assert forall|k: int| 0 <= k < p.len() implies (#[trigger] lite_part(p[k]) matches Some(la) ==> (
                (forall|c: ClassV| crate::lite::model::axiom_classes(la).contains(c) ==> o.classes.contains(c))
                && (forall|q: PropertyV| crate::lite::model::axiom_properties(la).contains(q) ==> o.properties.contains(q))
                && (forall|i: Seq<char>| crate::lite::model::axiom_individuals(la).contains(i) ==> o.individuals.contains(i)))) by {
                assert(p[k] == axs[k]);
            }
        }
        law_to_lite_keeps_lists(o, p);
        let last = axs[axs.len() - 1];
        assert(lite_part(axs[axs.len() - 1]) == lite_part(last));
        match lite_part(last) {
            Some(la) => {
                lemma_extend_listed(o.classes, crate::lite::model::axiom_classes(la));
                lemma_extend_listed(o.properties, crate::lite::model::axiom_properties(la));
                lemma_extend_listed(o.individuals, crate::lite::model::axiom_individuals(la));
                assert((o.axioms + lite_parts(p)).push(la) =~= o.axioms + lite_parts(axs));
            },
            None => {},
        }
    }
}

/// The OWL DL ontology after OWL Lite statements were added in order.
pub open spec fn add_lite_axioms(o: DlOntologyV, las: Seq<LiteAxiomV>) -> DlOntologyV
    decreases las.len(),
{
    if las.len() == 0 {
        o
    } else {
        add_dl_axiom_spec(add_lite_axioms(o, las.drop_last()), DlAxiomV::OwlLite(las.last()))
    }
}

/// The OWL DL ontology that an OWL Lite ontology becomes: the same IRI,
/// classes, properties and individuals, then each statement added.
pub open spec fn from_lite_spec(lo: OntologyV) -> DlOntologyV {
    add_lite_axioms(DlOntologyV { iri: lo.iri, axioms: Seq::empty(), classes: lo.classes, properties: lo.properties,
        individuals: lo.individuals, class_expressions: Seq::empty(), property_expressions: Seq::empty() }, lo.axioms)
}

/// The OWL DL ontology after the statements of `axs` were added to `o` in
/// order, as `add_axiom` adds them.
pub open spec fn dl_added_all(o: DlOntologyV, axs: Seq<DlAxiomV>) -> DlOntologyV
    decreases axs.len(),
{
    if axs.len() == 0 {
        o
    } else {
        super::model::add_dl_axiom_spec(dl_added_all(o, axs.drop_last()), axs.last())
    }
}

/// The ontology that `OwlDlOntology::new` gives.
pub open spec fn empty_dl_ontology() -> DlOntologyV {
    DlOntologyV { iri: None, axioms: Seq::empty(), classes: Seq::empty(), properties: Seq::empty(),
        individuals: Seq::empty(), class_expressions: Seq::empty(), property_expressions: Seq::empty() }
}

/// The OWL Lite ontology that conversion starts from: the IRI and the lists
/// of `d`, and no statements.
pub open spec fn lite_start(d: DlOntologyV) -> OntologyV {
    OntologyV { iri: d.iri, axioms: Seq::empty(), classes: d.classes, properties: d.properties, individuals: d.individuals }
}

proof fn lemma_dl_part_lists(o: DlOntologyV, a: DlAxiomV)
    ensures
        lite_part(a) matches Some(la) ==> super::model::lists_mentions(super::model::dl_effect(o, a), la),
{
    match lite_part(a) {
        Some(la) => {
            assert(super::model::dl_effect(o, a) == super::model::lite_effect(o, la));
            super::model::lemma_lite_effect_lists(o, la);
        },
        None => {},
    }
}

proof fn lemma_added_lists(o: DlOntologyV, axs: Seq<DlAxiomV>)
    ensures
        dl_added_all(o, axs).axioms == o.axioms + axs,
        dl_added_all(o, axs).iri == o.iri,
        forall|k: int| 0 <= k < axs.len() ==> (#[trigger] lite_part(axs[k]) matches Some(la)
            ==> super::model::lists_mentions(dl_added_all(o, axs), la)),
    decreases axs.len(),
{
    if axs.len() == 0 {
        assert(o.axioms + axs =~= o.axioms);
    } else {
        let p = axs.drop_last();
        let prev = dl_added_all(o, p);
        let a = axs.last();
        let d = dl_added_all(o, axs);
        lemma_added_lists(o, p);
        super::model::law_add_axiom_keeps(prev, a);
        lemma_dl_part_lists(prev, a);
        assert((o.axioms + p).push(a) =~= o.axioms + axs);
        assert forall|k: int| 0 <= k < axs.len() implies (#[trigger] lite_part(axs[k]) matches Some(la)
            ==> super::model::lists_mentions(d, la)) by {
            if k < axs.len() - 1 {
                assert(p[k] == axs[k]);
                if let Some(la) = lite_part(axs[k]) {
                    assert(lite_part(p[k]) == Some(la));
                    let d2 = DlOntologyV { axioms: prev.axioms, ..d };
                    super::model::lemma_lists_mono(prev, d2, la);
                    assert(d2.classes == d.classes && d2.properties == d.properties && d2.individuals == d.individuals);
                }
            }
        }
    }
}

/// Converting an OWL DL ontology built by `OwlDlOntology::new` and
/// `add_axiom` calls to OWL Lite keeps its IRI and its lists of classes,
/// properties and individuals, and lists, in order, the statements that
/// have an OWL Lite form; the others are dropped.
pub proof fn law_built_to_lite(axs: Seq<DlAxiomV>)
    ensures
        dl_added_all(empty_dl_ontology(), axs).axioms == axs,
        to_lite_spec(lite_start(dl_added_all(empty_dl_ontology(), axs)), axs)
            == (OntologyV { axioms: lite_parts(axs), ..lite_start(dl_added_all(empty_dl_ontology(), axs)) }),
{
    let d = dl_added_all(empty_dl_ontology(), axs);
    let o = lite_start(d);
    lemma_added_lists(empty_dl_ontology(), axs);
    assert(empty_dl_ontology().axioms + axs =~= axs);
    assert(lite_mentions_listed(o, axs)) by {
        assert forall|k: int| 0 <= k < axs.len() implies (#[trigger] lite_part(axs[k]) matches Some(la) ==> (
            (forall|c: ClassV| crate::lite::model::axiom_classes(la).contains(c) ==> o.classes.contains(c))
            && (forall|q: PropertyV| crate::lite::model::axiom_properties(la).contains(q) ==> o.properties.contains(q))
            && (forall|i: Seq<char>| crate::lite::model::axiom_individuals(la).contains(i) ==> o.individuals.contains(i)))) by {
            if let Some(la) = lite_part(axs[k]) {
                assert(super::model::lists_mentions(d, la));
            }
        }
    }
    law_to_lite_keeps_lists(o, axs);
    assert(o.axioms + lite_parts(axs) =~= lite_parts(axs));
}


pub proof fn lemma_members_all(axs: Seq<DlAxiomV>, i: Seq<char>, cs: Seq<ClassExpressionV>)
    ensures
        members_all(axs, i, cs) <==> forall|k: int| 0 <= k < cs.len() ==> dl_member(axs, i, #[trigger] cs[k]),
        members_any(axs, i, cs) <==> exists|k: int| 0 <= k < cs.len() && dl_member(axs, i, #[trigger] cs[k]),
    decreases cs.len(),
{
    if cs.len() > 0 {
        let p = cs.drop_last();
        lemma_members_all(axs, i, p);
        assert forall|k: int| 0 <= k < p.len() implies p[k] == cs[k] by {}
        if members_any(axs, i, cs) {
            if members_any(axs, i, p) {
                let k = choose|k: int| 0 <= k < p.len() && dl_member(axs, i, #[trigger] p[k]);
                assert(cs[k] == p[k]);
            } else {
                assert(dl_member(axs, i, cs[cs.len() - 1]));
            }
        }
        if exists|k: int| 0 <= k < cs.len() && dl_member(axs, i, #[trigger] cs[k]) {
            let k = choose|k: int| 0 <= k < cs.len() && dl_member(axs, i, #[trigger] cs[k]);
            if k < cs.len() - 1 {
                assert(p[k] == cs[k]);
            }
        }
        if forall|k: int| 0 <= k < cs.len() ==> dl_member(axs, i, #[trigger] cs[k]) {
            assert forall|k: int| 0 <= k < p.len() implies dl_member(axs, i, #[trigger] p[k]) by {
                assert(cs[k] == p[k]);
            }
            assert(dl_member(axs, i, cs[cs.len() - 1]));
        }
    }
}

/// Instance checking follows the connectives: everything is a Thing and
/// nothing a Nothing; the complement of a class holds exactly where the
/// class does not; an intersection holds where all its members do and a
/// union where some member does; an enumeration holds of its listed
/// individuals; and an exact cardinality holds where both the minimum and
/// the maximum of the same number do.
pub proof fn law_instance_connectives(axs: Seq<DlAxiomV>, i: Seq<char>, c: ClassExpressionV, cs: Seq<ClassExpressionV>,
    js: Seq<Seq<char>>, n: u32, p: PropertyExpressionV, oc: Option<Box<ClassExpressionV>>)
    ensures
        dl_member(axs, i, ClassExpressionV::Thing),
        !dl_member(axs, i, ClassExpressionV::Nothing),
        dl_member(axs, i, ClassExpressionV::ComplementOf(Box::new(c))) == !dl_member(axs, i, c),
        dl_member(axs, i, ClassExpressionV::IntersectionOf(cs)) <==> forall|k: int| 0 <= k < cs.len() ==> dl_member(axs, i, #[trigger] cs[k]),
        dl_member(axs, i, ClassExpressionV::UnionOf(cs)) <==> exists|k: int| 0 <= k < cs.len() && dl_member(axs, i, #[trigger] cs[k]),
        dl_member(axs, i, ClassExpressionV::OneOf(js)) == js.contains(i),
        dl_member(axs, i, ClassExpressionV::ExactCardinality(n, p, oc)) == (dl_member(axs, i, ClassExpressionV::MinCardinality(n, p, oc))
            && dl_member(axs, i, ClassExpressionV::MaxCardinality(n, p, oc))),
{
    lemma_members_all(axs, i, cs);
}

/// Instance checking of restrictions on property `p`, with `objs` the
/// individuals that `i` is stated to be related to by `p`: an existential
/// restriction to `c` holds where one of them is an instance of `c`, a
/// universal one where all of them are, a value restriction to `v` where
/// `v` is among them; a minimum cardinality `n` without a class holds where
/// there are at least `n` of them, a maximum where there are at most `n`,
/// an exact one where there are exactly `n`.
pub proof fn law_instance_restrictions(axs: Seq<DlAxiomV>, i: Seq<char>, p: PropertyExpressionV, c: ClassExpressionV,
    v: Seq<char>, n: u32)
    ensures
        ({
            let objs = stated_objects(axs, i, p);
            &&& dl_member(axs, i, ClassExpressionV::SomeValuesFrom(p, Box::new(c)))
                <==> exists|k: int| 0 <= k < objs.len() && dl_member(axs, #[trigger] objs[k], c)
            &&& dl_member(axs, i, ClassExpressionV::AllValuesFrom(p, Box::new(c)))
                <==> forall|k: int| 0 <= k < objs.len() ==> dl_member(axs, #[trigger] objs[k], c)
            &&& dl_member(axs, i, ClassExpressionV::HasValue(p, v)) <==> objs.contains(v)
            &&& dl_member(axs, i, ClassExpressionV::MinCardinality(n, p, None)) <==> objs.len() >= n
            &&& dl_member(axs, i, ClassExpressionV::MaxCardinality(n, p, None)) <==> objs.len() <= n
            &&& dl_member(axs, i, ClassExpressionV::ExactCardinality(n, p, None)) <==> objs.len() == n
        }),
{
    lemma_objects_members(axs, stated_objects(axs, i, p), c);
}

pub proof fn lemma_objects_members(axs: Seq<DlAxiomV>, objs: Seq<Seq<char>>, c: ClassExpressionV)
    ensures
        some_member(axs, objs, c) <==> exists|k: int| 0 <= k < objs.len() && dl_member(axs, #[trigger] objs[k], c),
        all_member(axs, objs, c) <==> forall|k: int| 0 <= k < objs.len() ==> dl_member(axs, #[trigger] objs[k], c),
    decreases objs.len(),
{
    if objs.len() > 0 {
        let p = objs.drop_last();
        lemma_objects_members(axs, p, c);
        if some_member(axs, objs, c) {
            if some_member(axs, p, c) {
                let k = choose|k: int| 0 <= k < p.len() && dl_member(axs, #[trigger] p[k], c);
                assert(objs[k] == p[k]);
            } else {
                assert(dl_member(axs, objs[objs.len() - 1], c));
            }
        }
        if exists|k: int| 0 <= k < objs.len() && dl_member(axs, #[trigger] objs[k], c) {
            let k = choose|k: int| 0 <= k < objs.len() && dl_member(axs, #[trigger] objs[k], c);
            if k < objs.len() - 1 {
                assert(p[k] == objs[k]);
            }
        }
        if forall|k: int| 0 <= k < objs.len() ==> dl_member(axs, #[trigger] objs[k], c) {
            assert forall|k: int| 0 <= k < p.len() implies dl_member(axs, #[trigger] p[k], c) by {
                assert(objs[k] == p[k]);
            }
            assert(dl_member(axs, objs[objs.len() - 1], c));
        }
        if all_member(axs, objs, c) {
            assert forall|k: int| 0 <= k < objs.len() implies dl_member(axs, #[trigger] objs[k], c) by {
                if k < p.len() {
                    assert(p[k] == objs[k]);
                }
            }
        }
    }
}

/// OWL DL reasoner.
#[derive(Debug)]
pub struct OwlDlReasoner {
    lite_reasoner: OwlLiteReasoner,
    dl_tableau: DlTableauReasoner,
}

impl OwlDlReasoner {
    pub closed spec fn wf(&self) -> bool {
        self.dl_tableau.wf()
    }

    pub fn new() -> (r: Self)
        ensures
            r.wf(),
    {
        OwlDlReasoner { lite_reasoner: OwlLiteReasoner::new(), dl_tableau: DlTableauReasoner::new() }
    }

    /// Read an OWL Lite ontology from the store and carry it over: the
    /// same IRI, classes, properties and individuals, and each statement
    /// added as an OWL Lite statement.
    pub fn load_ontology(&self, store: &RdfStore) -> (r: Result<OwlDlOntology, OwlDlError>)
        ensures
            r is Ok,
            r->Ok_0.wf(),
            r->Ok_0.view_of() == from_lite_spec(load_spec(store.view_triples())),
    {
        let lite = match self.lite_reasoner.load_ontology(store) {
            Ok(o) => o,
            Err(e) => { return Err(OwlDlError::LoaderError(e.to_string())); },
        };
        Ok(Self::from_lite(lite))
    }

    /// The OWL DL ontology an OWL Lite ontology becomes.
    pub fn from_lite(lite: Ontology) -> (r: OwlDlOntology)
        requires
            lite.wf(),
        ensures
            r.wf(),
            r.view_of() == from_lite_spec(lite.view_of()),
    {
        let ghost lv = lite.view_of();
        let mut dl = OwlDlOntology::new();
        dl.iri = lite.iri;
        dl.classes = lite.classes;
        dl.properties = lite.properties;
        dl.individuals = lite.individuals;
        let axioms = lite.axioms;
        let ghost av = axiom_views(axioms@);
        proof {
            assert(lv.axioms == av);
            assert(av.take(0) =~= Seq::<LiteAxiomV>::empty());
        }
        let mut k: usize = 0;
        let mut rest = axioms;
        let ghost all = rest@;
        proof {
            assert(all.subrange(0, 0) =~= Seq::<LiteAxiom>::empty());
        }
        let n = rest.len();
        proof {
            assert(all.len() == n);
        }
        while rest.len() > 0
            invariant
                k + rest@.len() == all.len(),
                all.len() <= usize::MAX,
                rest@ == all.subrange(k as int, all.len() as int),
                av == axiom_views(all),
                dl.wf(),
                dl.view_of() == add_lite_axioms(DlOntologyV { iri: lv.iri, axioms: Seq::empty(), classes: lv.classes, properties: lv.properties,
                    individuals: lv.individuals, class_expressions: Seq::empty(), property_expressions: Seq::empty() }, av.take(k as int)),
            decreases rest.len(),
        {
            let a = rest.remove(0);
            proof {
                assert(a == all[k as int]);
                assert(av.take(k + 1).drop_last() =~= av.take(k as int));
                assert(av.take(k + 1).last() == a.view_of());
                assert(rest@ =~= all.subrange(k + 1, all.len() as int));
            }
            dl.add_axiom(Axiom::OwlLite(a));
            k += 1;
        }
        proof {
            assert(av.take(k as int) =~= av);
        }
        dl
    }

    /// The completion graph of the last consistency check.
    pub closed spec fn completion(&self) -> DlCompletionGraph {
        self.dl_tableau.completion()
    }

    /// Whether the ontology is consistent, by the tableau: the graph is
    /// built afresh from this ontology, the stated assertions are applied,
    /// the expansion rules run to a fixpoint, and the result is that no
    /// clash was found.
    pub fn is_consistent(&mut self, ontology: &OwlDlOntology) -> (r: Result<bool, OwlDlError>)
        requires
            old(self).wf(),
        ensures
            final(self).wf(),
            derived_from(final(self).completion(), ontology.view_of().axioms, ontology.view_of().individuals),
            forall|i: Seq<char>| ontology.view_of().individuals.contains(i) ==> #[trigger] final(self).completion().has_node(i),
            forall|i: Seq<char>, c: ClassExpressionV| #[trigger] stated_label(ontology.view_of().axioms, i, c) ==> final(self).completion().labeled(i, c),
            forall|i: Seq<char>, p: PropertyExpressionV, j: Seq<char>| #[trigger] stated_link(ontology.view_of().axioms, i, p, j) ==> final(self).completion().linked(i, p, j),
            forall|a: Seq<char>, b: Seq<char>| #[trigger] stated_same(ontology.view_of().axioms, a, b) ==> final(self).completion().same(a, b),
            forall|a: Seq<char>, b: Seq<char>| #[trigger] stated_different(ontology.view_of().axioms, a, b) ==> final(self).completion().different(a, b),
            match r {
                Ok(b) => b == !final(self).completion().has_clash() && saturated(final(self).completion()),
                Err(OwlDlError::ReasoningError(m)) => m@ == "Tableau algorithm did not terminate"@
                    && exists|gs: Seq<DlCompletionGraph>| #[trigger] gave_up(gs, ontology.view_of().axioms, ontology.view_of().individuals),
                Err(_) => false,
            },
    {
        self.dl_tableau.is_consistent(ontology)
    }

    /// Subsumption between class expressions is not supported.
    pub fn is_subsumed_by(&mut self, _ontology: &OwlDlOntology, _subclass: &ClassExpression, _superclass: &ClassExpression) -> (r: Result<bool, OwlDlError>)
        ensures
            *final(self) == *old(self),
            r matches Err(OwlDlError::UnsupportedFeature(m)) && m@ == "Complex class expression subsumption not yet implemented"@,
    {
        Err(OwlDlError::UnsupportedFeature("Complex class expression subsumption not yet implemented".to_string()))
    }

    /// Subclasses of class expressions are not supported.
    pub fn get_subclasses(&mut self, _ontology: &OwlDlOntology, _class: &ClassExpression) -> (r: Result<Vec<ClassExpression>, OwlDlError>)
        ensures
            *final(self) == *old(self),
            r matches Err(OwlDlError::UnsupportedFeature(m)) && m@ == "Subclass reasoning for complex expressions not yet implemented"@,
    {
        Err(OwlDlError::UnsupportedFeature("Subclass reasoning for complex expressions not yet implemented".to_string()))
    }

    /// Superclasses of class expressions are not supported.
    pub fn get_superclasses(&mut self, _ontology: &OwlDlOntology, _class: &ClassExpression) -> (r: Result<Vec<ClassExpression>, OwlDlError>)
        ensures
            *final(self) == *old(self),
            r matches Err(OwlDlError::UnsupportedFeature(m)) && m@ == "Superclass reasoning for complex expressions not yet implemented"@,
    {
        Err(OwlDlError::UnsupportedFeature("Superclass reasoning for complex expressions not yet implemented".to_string()))
    }

    /// Whether an individual is an instance of a class expression by the
    /// stated facts: named classes through stated class assertions and
    /// SubClassOf statements between named classes, the Boolean
    /// constructors by their meaning, restrictions and cardinalities over
    /// the stated object property assertions.
    pub fn is_instance_of(&mut self, ontology: &OwlDlOntology, individual: &Individual, class_expr: &ClassExpression) -> (r: Result<bool, OwlDlError>)
        ensures
            *final(self) == *old(self),
            r == Ok::<bool, OwlDlError>(dl_member(ontology.view_of().axioms, individual.node_view(), ce_view(*class_expr))),
        decreases class_expr, 1int, 0int,
    {
        let ghost axs = ontology.view_of().axioms;
        let ghost iv = individual.node_view();
        match class_expr {
            ClassExpression::Named(iri) => self.check_named_class_membership(ontology, individual, iri),
            ClassExpression::Thing => Ok(true),
            ClassExpression::Nothing => Ok(false),
            ClassExpression::IntersectionOf(classes) => {
                proof {
                    lemma_ce_seq_view(classes@);
                    lemma_members_all(axs, iv, ce_seq_view(classes@));
                }
                let mut k: usize = 0;
                while k < classes.len()
                    invariant
                        k <= classes@.len(),
                        *self == *old(self),
                        axs == ontology.view_of().axioms,
                        iv == individual.node_view(),
                        *class_expr == ClassExpression::IntersectionOf(*classes),
                        ce_seq_view(classes@).len() == classes@.len(),
                        forall|q: int| 0 <= q < classes@.len() ==> #[trigger] ce_seq_view(classes@)[q] == ce_view(classes@[q]),
                        forall|q: int| 0 <= q < k ==> dl_member(axs, iv, ce_view(#[trigger] classes@[q])),
                    decreases classes.len() - k,
                {
                    proof {
                        assert(decreases_to!(*class_expr => *classes));
                        assert(decreases_to!(*classes => classes@));
                        assert(decreases_to!(classes@ => classes@[k as int]));
                    }
                    match self.is_instance_of(ontology, individual, &classes[k]) {
                        Ok(b) => {
                            if !b {
                                proof {
                                    assert(ce_seq_view(classes@)[k as int] == ce_view(classes@[k as int]));
                                    lemma_members_all(axs, iv, ce_seq_view(classes@));
                                }
                                return Ok(false);
                            }
                        },
                        Err(e) => { return Err(e); },
                    }
                    k += 1;
                }
                proof {
                    assert forall|q: int| 0 <= q < ce_seq_view(classes@).len() implies dl_member(axs, iv, #[trigger] ce_seq_view(classes@)[q]) by {
                        assert(dl_member(axs, iv, ce_view(classes@[q])));
                    }
                }
                Ok(true)
            },
            ClassExpression::UnionOf(classes) => {
                proof {
                    lemma_ce_seq_view(classes@);
                    lemma_members_all(axs, iv, ce_seq_view(classes@));
                }
                let mut k: usize = 0;
                while k < classes.len()
                    invariant
                        k <= classes@.len(),
                        *self == *old(self),
                        axs == ontology.view_of().axioms,
                        iv == individual.node_view(),
                        *class_expr == ClassExpression::UnionOf(*classes),
                        ce_seq_view(classes@).len() == classes@.len(),
                        forall|q: int| 0 <= q < classes@.len() ==> #[trigger] ce_seq_view(classes@)[q] == ce_view(classes@[q]),
                        forall|q: int| 0 <= q < k ==> !dl_member(axs, iv, ce_view(#[trigger] classes@[q])),
                    decreases classes.len() - k,
                {
                    proof {
                        assert(decreases_to!(*class_expr => *classes));
                        assert(decreases_to!(*classes => classes@));
                        assert(decreases_to!(classes@ => classes@[k as int]));
                    }
                    match self.is_instance_of(ontology, individual, &classes[k]) {
                        Ok(b) => {
                            if b {
                                proof {
                                    assert(ce_seq_view(classes@)[k as int] == ce_view(classes@[k as int]));
                                    lemma_members_all(axs, iv, ce_seq_view(classes@));
                                }
                                return Ok(true);
                            }
                        },
                        Err(e) => { return Err(e); },
                    }
                    k += 1;
                }
                proof {
                    assert forall|q: int| 0 <= q < ce_seq_view(classes@).len() implies !dl_member(axs, iv, #[trigger] ce_seq_view(classes@)[q]) by {
                        assert(!dl_member(axs, iv, ce_view(classes@[q])));
                    }
                }
                Ok(false)
            },
            ClassExpression::ComplementOf(class) => {
                match self.is_instance_of(ontology, individual, &**class) {
                    Ok(b) => Ok(!b),
                    Err(e) => Err(e),
                }
            },
            ClassExpression::OneOf(individuals) => Ok(contains_node(individuals, individual)),
            ClassExpression::SomeValuesFrom { property, class } => self.check_some_values_from(ontology, individual, property, &**class),
            ClassExpression::AllValuesFrom { property, class } => self.check_all_values_from(ontology, individual, property, &**class),
            ClassExpression::HasValue { property, individual: value } => self.check_has_value(ontology, individual, property, value),
            ClassExpression::MinCardinality { cardinality, property, class } => {
                self.check_min_cardinality(ontology, individual, property, *cardinality, class)
            },
            ClassExpression::MaxCardinality { cardinality, property, class } => {
                self.check_max_cardinality(ontology, individual, property, *cardinality, class)
            },
            ClassExpression::ExactCardinality { cardinality, property, class } => {
                self.check_exact_cardinality(ontology, individual, property, *cardinality, class)
            },
        }
    }

    /// Membership of a named class: a stated class assertion of it, or of a
    /// named class that reaches it through SubClassOf statements.
    fn check_named_class_membership(&mut self, ontology: &OwlDlOntology, individual: &Individual, class_iri: &OwlIri) -> (r: Result<bool, OwlDlError>)
        ensures
            *final(self) == *old(self),
            r == Ok::<bool, OwlDlError>(named_member(ontology.view_of().axioms, individual.node_view(), class_iri.0@)),
    {
        let ghost axs = ontology.view_of().axioms;
        let ghost iv = individual.node_view();
        let ghost cv = class_iri.0@;
        let pairs = named_pairs(&ontology.axioms);
        let axioms = &ontology.axioms;
        let mut k: usize = 0;
        while k < axioms.len()
            invariant
                k <= axioms@.len(),
                axs == dl_axiom_views(axioms@),
                axs == ontology.view_of().axioms,
                iv == individual.node_view(),
                cv == class_iri.0@,
                edge_views(pairs@) == named_subclass_pairs(axs),
                forall|q: int| 0 <= q < k ==> !#[trigger] assertion_reaching(axs[q], iv, cv, named_subclass_pairs(axs)),
            decreases axioms.len() - k,
        {
            let ghost a = axs[k as int];
            proof {
                assert(a == axioms@[k as int].view_of());
            }
            match &axioms[k] {
                Axiom::OwlLite(LiteAxiom::ClassAssertion(Class::Named(c0), ind)) => {
                    if ind.same_node(individual) {
                        if c0.0 == class_iri.0 {
                            proof {
                                assert(stated_named(axs, iv, cv));
                            }
                            return Ok(true);
                        }
                        let reach = reachable_from(&pairs, &c0.0);
                        if contains_node(&reach, &class_iri.0) {
                            proof {
                                assert(stated_named(axs, iv, c0.0@));
                            }
                            return Ok(true);
                        }
                    }
                },
                _ => {},
            }
            k += 1;
        }
        proof {
            assert forall|c0: Seq<char>| #[trigger] stated_named(axs, iv, c0) implies !(c0 == cv || reaches(named_subclass_pairs(axs), c0, cv)) by {
                let q = choose|q: int| 0 <= q < axs.len() && axs[q] == DlAxiomV::OwlLite(LiteAxiomV::ClassAssertion(ClassV::Named(c0), iv));
                assert(!assertion_reaching(axs[q], iv, cv, named_subclass_pairs(axs)));
            }
        }
        Ok(false)
    }

    /// The objects of the stated `property` edges of an individual, in
    /// order.
    fn collect_property_assertions(&self, ontology: &OwlDlOntology, individual: &Individual, property: &PropertyExpression) -> (r: Vec<Individual>)
        ensures
            node_views(r@) == stated_objects(ontology.view_of().axioms, individual.node_view(), pe_view(*property)),
    {
        let ghost axs = ontology.view_of().axioms;
        let ghost iv = individual.node_view();
        let ghost pv = pe_view(*property);
        let axioms = &ontology.axioms;
        let mut objects: Vec<Individual> = Vec::new();
        proof {
            assert(node_views(objects@) =~= Seq::<Seq<char>>::empty());
        }
        let mut k: usize = 0;
        while k < axioms.len()
            invariant
                k <= axioms@.len(),
                axs == dl_axiom_views(axioms@),
                iv == individual.node_view(),
                pv == pe_view(*property),
                node_views(objects@) == stated_objects(axs.take(k as int), iv, pv),
            decreases axioms.len() - k,
        {
            let ghost before = node_views(objects@);
            proof {
                assert(axs.take(k + 1).drop_last() =~= axs.take(k as int));
                assert(axs.take(k + 1).last() == axioms@[k as int].view_of());
            }
            match &axioms[k] {
                Axiom::ObjectPropertyAssertion(prop_expr, subject, object) => {
                    if subject.same_node(individual) && prop_expr.same(property) {
                        objects.push(object.copy_node());
                        proof {
                            assert(node_views(objects@) =~= before.push(object.node_view()));
                        }
                    }
                },
                Axiom::OwlLite(LiteAxiom::ObjectPropertyAssertion(prop, subject, object)) => {
                    if let Property::Object(iri) = prop {
                        let prop_expr = PropertyExpression::ObjectProperty(iri.clone());
                        if subject.same_node(individual) && prop_expr.same(property) {
                            objects.push(object.copy_node());
                            proof {
                                assert(node_views(objects@) =~= before.push(object.node_view()));
                            }
                        }
                    }
                },
                _ => {},
            }
            k += 1;
        }
        proof {
            assert(axs.take(axs.len() as int) =~= axs);
        }
        objects
    }

    /// Some stated `property` object of the individual is an instance of
    /// `class`.
    fn check_some_values_from(&mut self, ontology: &OwlDlOntology, individual: &Individual, property: &PropertyExpression, class: &ClassExpression) -> (r: Result<bool, OwlDlError>)
        ensures
            *final(self) == *old(self),
            r == Ok::<bool, OwlDlError>(some_member(ontology.view_of().axioms, stated_objects(ontology.view_of().axioms, individual.node_view(), pe_view(*property)), ce_view(*class))),
        decreases class, 2int, 0int,
    {
        let ghost axs = ontology.view_of().axioms;
        let objects = self.collect_property_assertions(ontology, individual, property);
        let ghost objs = node_views(objects@);
        proof {
            lemma_objects_members(axs, objs, ce_view(*class));
        }
        let mut k: usize = 0;
        while k < objects.len()
            invariant
                k <= objects@.len(),
                *self == *old(self),
                axs == ontology.view_of().axioms,
                objs == node_views(objects@),
                objs == stated_objects(axs, individual.node_view(), pe_view(*property)),
                forall|q: int| 0 <= q < k ==> !dl_member(axs, #[trigger] objs[q], ce_view(*class)),
            decreases objects.len() - k,
        {
            match self.is_instance_of(ontology, &objects[k], class) {
                Ok(b) => {
                    if b {
                        proof {
                            assert(objs[k as int] == objects@[k as int].node_view());
                            lemma_objects_members(axs, objs, ce_view(*class));
                        }
                        return Ok(true);
                    }
                },
                Err(e) => { return Err(e); },
            }
            proof {
                assert(objs[k as int] == objects@[k as int].node_view());
            }
            k += 1;
        }
        Ok(false)
    }

    /// Every stated `property` object of the individual is an instance of
    /// `class`.
    fn check_all_values_from(&mut self, ontology: &OwlDlOntology, individual: &Individual, property: &PropertyExpression, class: &ClassExpression) -> (r: Result<bool, OwlDlError>)
        ensures
            *final(self) == *old(self),
            r == Ok::<bool, OwlDlError>(all_member(ontology.view_of().axioms, stated_objects(ontology.view_of().axioms, individual.node_view(), pe_view(*property)), ce_view(*class))),
        decreases class, 2int, 0int,
    {
        let ghost axs = ontology.view_of().axioms;
        let objects = self.collect_property_assertions(ontology, individual, property);
        let ghost objs = node_views(objects@);
        proof {
            lemma_objects_members(axs, objs, ce_view(*class));
        }
        let mut k: usize = 0;
        while k < objects.len()
            invariant
                k <= objects@.len(),
                *self == *old(self),
                axs == ontology.view_of().axioms,
                objs == node_views(objects@),
                objs == stated_objects(axs, individual.node_view(), pe_view(*property)),
                forall|q: int| 0 <= q < k ==> dl_member(axs, #[trigger] objs[q], ce_view(*class)),
            decreases objects.len() - k,
        {
            match self.is_instance_of(ontology, &objects[k], class) {
                Ok(b) => {
                    if !b {
                        proof {
                            assert(objs[k as int] == objects@[k as int].node_view());
                            lemma_objects_members(axs, objs, ce_view(*class));
                        }
                        return Ok(false);
                    }
                },
                Err(e) => { return Err(e); },
            }
            proof {
                assert(objs[k as int] == objects@[k as int].node_view());
            }
            k += 1;
        }
        Ok(true)
    }

    /// The individual has a stated `property` edge to `value`.
    fn check_has_value(&mut self, ontology: &OwlDlOntology, individual: &Individual, property: &PropertyExpression, value: &Individual) -> (r: Result<bool, OwlDlError>)
        ensures
            *final(self) == *old(self),
            r == Ok::<bool, OwlDlError>(stated_objects(ontology.view_of().axioms, individual.node_view(), pe_view(*property)).contains(value.node_view())),
    {
        let objects = self.collect_property_assertions(ontology, individual, property);
        Ok(contains_node(&objects, value))
    }

    /// How many stated `property` objects of the individual are instances
    /// of the class (all of them without a class).
    fn count_satisfying(&mut self, ontology: &OwlDlOntology, individual: &Individual, property: &PropertyExpression, class: &Option<Box<ClassExpression>>) -> (r: Result<usize, OwlDlError>)
        ensures
            *final(self) == *old(self),
            r matches Ok(n) && n == (match *class {
                Some(b) => count_members(ontology.view_of().axioms, stated_objects(ontology.view_of().axioms, individual.node_view(), pe_view(*property)), ce_view(*b)),
                None => stated_objects(ontology.view_of().axioms, individual.node_view(), pe_view(*property)).len(),
            }),
        decreases *class, 2int, 0int,
    {
        let ghost axs = ontology.view_of().axioms;
        let objects = self.collect_property_assertions(ontology, individual, property);
        let ghost objs = node_views(objects@);
        match class {
            None => Ok(objects.len()),
            Some(required) => {
                let ghost cv = ce_view(**required);
                let mut count: usize = 0;
                let mut k: usize = 0;
                while k < objects.len()
                    invariant
                        k <= objects@.len(),
                        *self == *old(self),
                        axs == ontology.view_of().axioms,
                        objs == node_views(objects@),
                        cv == ce_view(**required),
                        *class == Some(*required),
                        count <= k,
                        count == count_members(axs, objs.take(k as int), cv),
                    decreases objects.len() - k,
                {
                    proof {
                        assert(decreases_to!(*class => class->0));
                        assert(objs.take(k + 1).drop_last() =~= objs.take(k as int));
                        assert(objs.take(k + 1).last() == objects@[k as int].node_view());
                    }
                    match self.is_instance_of(ontology, &objects[k], &**required) {
                        Ok(b) => {
                            if b {
                                count += 1;
                            }
                        },
                        Err(e) => { return Err(e); },
                    }
                    k += 1;
                }
                proof {
                    assert(objs.take(objs.len() as int) =~= objs);
                }
                Ok(count)
            },
        }
    }

    /// At least `min_count` stated `property` objects of the individual are
    /// instances of the class.
    fn check_min_cardinality(&mut self, ontology: &OwlDlOntology, individual: &Individual, property: &PropertyExpression, min_count: u32, class: &Option<Box<ClassExpression>>) -> (r: Result<bool, OwlDlError>)
        ensures
            *final(self) == *old(self),
            r == Ok::<bool, OwlDlError>((match *class {
                Some(b) => count_members(ontology.view_of().axioms, stated_objects(ontology.view_of().axioms, individual.node_view(), pe_view(*property)), ce_view(*b)),
                None => stated_objects(ontology.view_of().axioms, individual.node_view(), pe_view(*property)).len(),
            }) >= min_count),
        decreases *class, 3int, 0int,
    {
        match self.count_satisfying(ontology, individual, property, class) {
            Ok(count) => Ok(count >= min_count as usize),
            Err(e) => Err(e),
        }
    }

    /// At most `max_count` stated `property` objects of the individual are
    /// instances of the class.
    fn check_max_cardinality(&mut self, ontology: &OwlDlOntology, individual: &Individual, property: &PropertyExpression, max_count: u32, class: &Option<Box<ClassExpression>>) -> (r: Result<bool, OwlDlError>)
        ensures
            *final(self) == *old(self),
            r == Ok::<bool, OwlDlError>((match *class {
                Some(b) => count_members(ontology.view_of().axioms, stated_objects(ontology.view_of().axioms, individual.node_view(), pe_view(*property)), ce_view(*b)),
                None => stated_objects(ontology.view_of().axioms, individual.node_view(), pe_view(*property)).len(),
            }) <= max_count),
        decreases *class, 3int, 0int,
    {
        match self.count_satisfying(ontology, individual, property, class) {
            Ok(count) => Ok(count <= max_count as usize),
            Err(e) => Err(e),
        }
    }

    /// Exactly `exact_count` stated `property` objects of the individual
    /// are instances of the class.
    fn check_exact_cardinality(&mut self, ontology: &OwlDlOntology, individual: &Individual, property: &PropertyExpression, exact_count: u32, class: &Option<Box<ClassExpression>>) -> (r: Result<bool, OwlDlError>)
        ensures
            *final(self) == *old(self),
            r == Ok::<bool, OwlDlError>((match *class {
                Some(b) => count_members(ontology.view_of().axioms, stated_objects(ontology.view_of().axioms, individual.node_view(), pe_view(*property)), ce_view(*b)),
                None => stated_objects(ontology.view_of().axioms, individual.node_view(), pe_view(*property)).len(),
            }) == exact_count),
        decreases *class, 4int, 0int,
    {
        let min_result = match self.check_min_cardinality(ontology, individual, property, exact_count, class) {
            Ok(b) => b,
            Err(e) => { return Err(e); },
        };
        let max_result = match self.check_max_cardinality(ontology, individual, property, exact_count, class) {
            Ok(b) => b,
            Err(e) => { return Err(e); },
        };
        Ok(min_result && max_result)
    }

    /// Classification of class expressions is not supported.
    pub fn classify_ontology(&mut self, _ontology: &OwlDlOntology) -> (r: Result<Vec<(ClassExpression, Vec<ClassExpression>)>, OwlDlError>)
        ensures
            *final(self) == *old(self),
            r matches Err(OwlDlError::UnsupportedFeature(m)) && m@ == "Full OWL DL classification not yet implemented"@,
    {
        Err(OwlDlError::UnsupportedFeature("Full OWL DL classification not yet implemented".to_string()))
    }

    /// Realization is not supported.
    pub fn realize_ontology(&mut self, _ontology: &OwlDlOntology) -> (r: Result<Vec<(Individual, Vec<ClassExpression>)>, OwlDlError>)
        ensures
            *final(self) == *old(self),
            r matches Err(OwlDlError::UnsupportedFeature(m)) && m@ == "Ontology realization for OWL DL not yet implemented"@,
    {
        Err(OwlDlError::UnsupportedFeature("Ontology realization for OWL DL not yet implemented".to_string()))
    }

    /// No statement is inferred yet.
    pub fn get_inferred_axioms(&mut self, _ontology: &OwlDlOntology) -> (r: Result<Vec<Axiom>, OwlDlError>)
        ensures
            *final(self) == *old(self),
            r matches Ok(v) && v@.len() == 0,
    {
        Ok(Vec::new())
    }

    /// The OWL Lite ontology with the same IRI, classes, properties and
    /// individuals, and the statements OWL Lite can hold, in order.
    pub fn to_owl_lite(&self, dl_ontology: &OwlDlOntology) -> (r: Result<Ontology, OwlDlError>)
        ensures
            r is Ok,
            r->Ok_0.view_of() == to_lite_spec(OntologyV { iri: dl_ontology.view_of().iri, axioms: Seq::empty(),
                classes: dl_ontology.view_of().classes, properties: dl_ontology.view_of().properties,
                individuals: dl_ontology.view_of().individuals }, dl_ontology.view_of().axioms),
            dl_ontology.wf() ==> r->Ok_0.wf(),
    {
        let ghost dv = dl_ontology.view_of();
        let mut lite = Ontology::new();
        lite.iri = match &dl_ontology.iri { Some(i) => Some(i.clone()), None => None };
        lite.classes = copy_nodes(&dl_ontology.classes);
        lite.properties = copy_nodes(&dl_ontology.properties);
        lite.individuals = copy_nodes(&dl_ontology.individuals);
        let ghost start = lite.view_of();
        proof {
            assert(start.axioms =~= Seq::<LiteAxiomV>::empty());
        }
        let axioms = &dl_ontology.axioms;
        let ghost axs = dl_axiom_views(axioms@);
        let mut k: usize = 0;
        while k < axioms.len()
            invariant
                k <= axioms@.len(),
                axs == dl_axiom_views(axioms@),
                lite.view_of() == to_lite_spec(start, axs.take(k as int)),
                dl_ontology.wf() ==> lite.wf(),
            decreases axioms.len() - k,
        {
            proof {
                assert(axs.take(k + 1).drop_last() =~= axs.take(k as int));
                assert(axs.take(k + 1).last() == axioms@[k as int].view_of());
            }
            match &axioms[k] {
                Axiom::OwlLite(la) => { lite.add_axiom(la.copy()); },
                Axiom::SubClassOf(ClassExpression::Named(sub_iri), ClassExpression::Named(super_iri)) => {
                    lite.add_axiom(LiteAxiom::SubClassOf(Class::Named(sub_iri.clone()), Class::Named(super_iri.clone())));
                },
                Axiom::ClassAssertion(ClassExpression::Named(iri), individual) => {
                    lite.add_axiom(LiteAxiom::ClassAssertion(Class::Named(iri.clone()), individual.clone()));
                },
                Axiom::ObjectPropertyAssertion(PropertyExpression::ObjectProperty(iri), i1, i2) => {
                    lite.add_axiom(LiteAxiom::ObjectPropertyAssertion(Property::Object(iri.clone()), i1.clone(), i2.clone()));
                },
                _ => {},
            }
            k += 1;
        }
        proof {
            assert(axs.take(axs.len() as int) =~= axs);
        }
        Ok(lite)
    }
}

/// The (subclass, superclass) IRIs of the OWL Lite SubClassOf statements
/// between named classes, in order.
fn named_pairs(axioms: &Vec<Axiom>) -> (r: Vec<(String, String)>)
    ensures
        edge_views(r@) == named_subclass_pairs(dl_axiom_views(axioms@)),
{
    let ghost axs = dl_axiom_views(axioms@);
    let mut pairs: Vec<(String, String)> = Vec::new();
    proof {
        assert(edge_views(pairs@) =~= Seq::<(Seq<char>, Seq<char>)>::empty());
    }
    let mut k: usize = 0;
    while k < axioms.len()
        invariant
            k <= axioms@.len(),
            axs == dl_axiom_views(axioms@),
            edge_views(pairs@) == named_subclass_pairs(axs.take(k as int)),
        decreases axioms.len() - k,
    {
        let ghost before = edge_views(pairs@);
        proof {
            assert(axs.take(k + 1).drop_last() =~= axs.take(k as int));
            assert(axs.take(k + 1).last() == axioms@[k as int].view_of());
        }
        match &axioms[k] {
            Axiom::OwlLite(LiteAxiom::SubClassOf(Class::Named(a), Class::Named(b))) => {
                pairs.push((a.0.clone(), b.0.clone()));
                proof {
                    assert(edge_views(pairs@) =~= before.push((a.0@, b.0@)));
                }
            },
            _ => {},
        }
        k += 1;
    }
    proof {
        assert(axs.take(axs.len() as int) =~= axs);
    }
    pairs
}

} // verus!
