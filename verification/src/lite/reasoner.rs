//! OWL Lite reasoner: loading, consistency, classification and the
//! statements that follow from the class hierarchy.

use vstd::prelude::*;
use crate::closure::{GraphNode, node_views, edge_views, distinct, reaches, contains_node};
use crate::hierarchy::{in_hier, has_key, hier_wf, hier_edges, hier_get, hier_flatten, lemma_hier_edges_contains};
use crate::nodeset::{insert_node, extend_nodes, seq_insert, seq_extend, lemma_seq_insert, lemma_seq_extend};
use crate::rdf_store::RdfStore;
use crate::model::TripleView;
use super::model::{Ontology, OntologyV, Class, ClassV, Individual, Axiom, AxiomV, axiom_views};
use super::tableau::{TableauReasoner, CompletionGraph, subclass_pairs, asserted_label, asserted_link};
use super::loader::{DefaultOntologyLoader, OntologyLoader, load_spec, owl_equivalent_class_iri, law_equivalent_class_both_ways};
use super::OwlError;

verus! {

/// A statement that follows from the class hierarchy of `o`: a SubClassOf
/// between two different classes that the stated ones connect, or a class
/// assertion for a class above a stated class of an individual.
pub open spec fn lite_inferred(o: OntologyV, x: AxiomV) -> bool {
    let pairs = subclass_pairs(o.axioms);
    ||| (x matches AxiomV::SubClassOf(a, b) && a != b && reaches(pairs, a, b))
    ||| (x matches AxiomV::ClassAssertion(d, i) && exists|c: ClassV| asserted_label(o.axioms, i, c) && c != d && reaches(pairs, c, d))
}

/// The class assertions that the first statements of `axs` lead to through
/// hierarchy `h`.
pub open spec fn assertion_consequence(axs: Seq<AxiomV>, h: Seq<(Class, Vec<Class>)>, x: AxiomV) -> bool {
    exists|q: int| 0 <= q < axs.len() && #[trigger] axs[q] is ClassAssertion && (x matches AxiomV::ClassAssertion(d, i)
        && i == axs[q]->ClassAssertion_1 && d != axs[q]->ClassAssertion_0 && in_hier(h, axs[q]->ClassAssertion_0, d))
}

/// OWL Lite reasoner.
#[derive(Debug)]
pub struct OwlLiteReasoner {
    loader: DefaultOntologyLoader,
    tableau: TableauReasoner,
}

impl OwlLiteReasoner {
    pub closed spec fn wf(&self) -> bool {
        self.tableau.wf()
    }

    /// The completion graph of the last consistency check.
    pub closed spec fn completion(&self) -> CompletionGraph {
        self.tableau.completion()
    }

    pub fn new() -> (r: Self)
        ensures
            r.wf(),
            forall|i: Seq<char>| !r.completion().has_node(i),
    {
        OwlLiteReasoner { loader: DefaultOntologyLoader, tableau: TableauReasoner::new() }
    }

    /// Read an ontology from the triples of a store.
    pub fn load_ontology(&self, store: &RdfStore) -> (r: Result<Ontology, OwlError>)
        ensures
            r is Ok,
            r->Ok_0.wf(),
            r->Ok_0.view_of() == load_spec(store.view_triples()),
    {
        self.loader.load_from_store(store)
    }

    /// Whether no individual is forced into owl:Nothing by the stated facts.
    pub fn is_consistent(&mut self, ontology: &Ontology) -> (r: Result<bool, OwlError>)
        requires
            old(self).wf(),
        ensures
            final(self).wf(),
            forall|i: Seq<char>| final(self).completion().has_node(i) <==> ontology.view_of().individuals.contains(i),
            forall|i: Seq<char>, c: ClassV| final(self).completion().labeled(i, c) <==>
                (final(self).completion().has_node(i) && asserted_label(ontology.view_of().axioms, i, c)),
            r == Ok::<bool, OwlError>(!final(self).completion().has_clash()),
    {
        self.tableau.is_consistent(ontology)
    }

    /// The class hierarchy: each class that is the subclass of a SubClassOf
    /// statement, with every class it reaches through them.
    pub fn compute_class_hierarchy(&mut self, ontology: &Ontology) -> (r: Result<Vec<(Class, Vec<Class>)>, OwlError>)
        ensures
            *final(self) == *old(self),
            r is Ok,
            hier_wf(r->Ok_0@),
            forall|a: ClassV| has_key(r->Ok_0@, a) <==> exists|b: ClassV| subclass_pairs(ontology.view_of().axioms).contains((a, b)),
            forall|a: ClassV, b: ClassV| in_hier(r->Ok_0@, a, b) <==> reaches(subclass_pairs(ontology.view_of().axioms), a, b),
    {
        self.tableau.compute_subsumption_hierarchy(ontology)
    }

    /// Whether `subclass` ⊑ `superclass`: they are the same class, or the
    /// first reaches the second through SubClassOf statements.
    pub fn is_subsumed_by(&mut self, ontology: &Ontology, subclass: &Class, superclass: &Class) -> (r: Result<bool, OwlError>)
        ensures
            *final(self) == *old(self),
            r == Ok::<bool, OwlError>(subclass.view_of() == superclass.view_of()
                || reaches(subclass_pairs(ontology.view_of().axioms), subclass.view_of(), superclass.view_of())),
    {
        if subclass.same_node(superclass) {
            return Ok(true);
        }
        let hierarchy = match self.compute_class_hierarchy(ontology) {
            Ok(h) => h,
            Err(e) => { return Err(e); },
        };
        match hier_get(&hierarchy, subclass) {
            Some(supers) => Ok(contains_node(supers, superclass)),
            None => Ok(false),
        }
    }

    /// The class itself and every class that reaches it, each once.
    pub fn get_subclasses(&mut self, ontology: &Ontology, class: &Class) -> (r: Result<Vec<Class>, OwlError>)
        ensures
            *final(self) == *old(self),
            r is Ok,
            distinct(node_views(r->Ok_0@)),
            forall|x: ClassV| node_views(r->Ok_0@).contains(x) <==> (x == class.view_of() || reaches(subclass_pairs(ontology.view_of().axioms), x, class.view_of())),
    {
        let hierarchy = match self.compute_class_hierarchy(ontology) {
            Ok(h) => h,
            Err(e) => { return Err(e); },
        };
        let ghost cv = class.view_of();
        let mut out: Vec<Class> = Vec::new();
        proof {
            assert(node_views(out@) =~= Seq::<ClassV>::empty());
        }
        let mut k: usize = 0;
        while k < hierarchy.len()
            invariant
                k <= hierarchy@.len(),
                hier_wf(hierarchy@),
                cv == class.view_of(),
                distinct(node_views(out@)),
                forall|x: ClassV| node_views(out@).contains(x) <==> exists|q: int| 0 <= q < k && #[trigger] hierarchy@[q].0.node_view() == x
                    && node_views(hierarchy@[q].1@).contains(cv),
            decreases hierarchy.len() - k,
        {
            let ghost before = node_views(out@);
            let ghost key = hierarchy@[k as int].0.node_view();
            let found = contains_node(&hierarchy[k].1, class);
            if found {
                insert_node(&mut out, hierarchy[k].0.clone());
            }
            proof {
                lemma_seq_insert(before, key);
                assert forall|x: ClassV| node_views(out@).contains(x) <==> exists|q: int| 0 <= q < k + 1 && #[trigger] hierarchy@[q].0.node_view() == x
                    && node_views(hierarchy@[q].1@).contains(cv) by {
                    if exists|q: int| 0 <= q < k + 1 && #[trigger] hierarchy@[q].0.node_view() == x && node_views(hierarchy@[q].1@).contains(cv) {
                        let q = choose|q: int| 0 <= q < k + 1 && #[trigger] hierarchy@[q].0.node_view() == x && node_views(hierarchy@[q].1@).contains(cv);
                        if q < k {
                            assert(before.contains(x));
                        }
                    }
                    if node_views(out@).contains(x) && !before.contains(x) {
                        assert(found && x == key);
                        assert(hierarchy@[k as int].0.node_view() == x);
                    }
                }
            }
            k += 1;
        }
        let ghost before = node_views(out@);
        insert_node(&mut out, class.clone());
        proof {
            lemma_seq_insert(before, cv);
            let pairs = subclass_pairs(ontology.view_of().axioms);
            assert forall|x: ClassV| node_views(out@).contains(x) <==> (x == cv || reaches(pairs, x, cv)) by {
                if reaches(pairs, x, cv) {
                    assert(in_hier(hierarchy@, x, cv));
                    let q = choose|q: int| 0 <= q < hierarchy@.len() && hierarchy@[q].0.node_view() == x && #[trigger] node_views(hierarchy@[q].1@).contains(cv);
                    assert(before.contains(x));
                }
                if before.contains(x) {
                    let q = choose|q: int| 0 <= q < hierarchy@.len() && #[trigger] hierarchy@[q].0.node_view() == x && node_views(hierarchy@[q].1@).contains(cv);
                    assert(in_hier(hierarchy@, x, cv));
                }
            }
        }
        Ok(out)
    }

    /// The class itself and every class it reaches, each once.
    pub fn get_superclasses(&mut self, ontology: &Ontology, class: &Class) -> (r: Result<Vec<Class>, OwlError>)
        ensures
            *final(self) == *old(self),
            r is Ok,
            distinct(node_views(r->Ok_0@)),
            forall|x: ClassV| node_views(r->Ok_0@).contains(x) <==> (x == class.view_of() || reaches(subclass_pairs(ontology.view_of().axioms), class.view_of(), x)),
    {
        let hierarchy = match self.compute_class_hierarchy(ontology) {
            Ok(h) => h,
            Err(e) => { return Err(e); },
        };
        let ghost cv = class.view_of();
        let mut out: Vec<Class> = Vec::new();
        proof {
            assert(node_views(out@) =~= Seq::<ClassV>::empty());
        }
        match hier_get(&hierarchy, class) {
            Some(supers) => {
                extend_nodes(&mut out, supers);
                proof {
                    lemma_seq_extend(Seq::<ClassV>::empty(), node_views(supers@));
                    assert forall|x: ClassV| node_views(out@).contains(x) <==> in_hier(hierarchy@, cv, x) by {
                        assert(!Seq::<ClassV>::empty().contains(x));
                    }
                }
            },
            None => {},
        }
        let ghost before = node_views(out@);
        proof {
            assert forall|x: ClassV| before.contains(x) <==> in_hier(hierarchy@, cv, x) by {
                if before.contains(x) {
                    let w = choose|w: int| 0 <= w < before.len() && before[w] == x;
                }
            }
        }
        insert_node(&mut out, class.clone());
        proof {
            lemma_seq_insert(before, cv);
            let pairs = subclass_pairs(ontology.view_of().axioms);
            assert forall|x: ClassV| node_views(out@).contains(x) <==> (x == cv || reaches(pairs, cv, x)) by {
                assert(in_hier(hierarchy@, cv, x) <==> reaches(pairs, cv, x));
            }
        }
        Ok(out)
    }

    /// Whether the individual is stated to belong to the class, or to a
    /// class that reaches it through SubClassOf statements.
    pub fn is_instance_of(&mut self, ontology: &Ontology, individual: &Individual, class: &Class) -> (r: Result<bool, OwlError>)
        ensures
            *final(self) == *old(self),
            r == Ok::<bool, OwlError>(instance_by_statement(ontology.view_of().axioms, individual.node_view(), class.view_of())),
    {
        let hierarchy = match self.compute_class_hierarchy(ontology) {
            Ok(h) => h,
            Err(e) => { return Err(e); },
        };
        let ghost axs = ontology.view_of().axioms;
        let ghost pairs = subclass_pairs(axs);
        let ghost iv = individual.node_view();
        let ghost cv = class.view_of();
        let mut k: usize = 0;
        while k < ontology.axioms.len()
            invariant
                k <= ontology.axioms@.len(),
                *self == *old(self),
                axs == axiom_views(ontology.axioms@),
                pairs == subclass_pairs(axs),
                iv == individual.node_view(),
                cv == class.view_of(),
                hier_wf(hierarchy@),
                forall|a: ClassV, b: ClassV| in_hier(hierarchy@, a, b) <==> reaches(pairs, a, b),
                forall|q: int| 0 <= q < k ==> (#[trigger] axs[q] matches AxiomV::ClassAssertion(d, j) ==> (j == iv ==> !(d == cv || reaches(pairs, d, cv)))),
            decreases ontology.axioms.len() - k,
        {
            proof {
                assert(axs[k as int] == ontology.axioms@[k as int].view_of());
            }
            match &ontology.axioms[k] {
                Axiom::ClassAssertion(d, ind) => {
                    if ind.same_node(individual) {
                        let direct = d.same_node(class);
                        let through = match hier_get(&hierarchy, d) {
                            Some(supers) => contains_node(supers, class),
                            None => false,
                        };
                        if direct || through {
                            proof {
                                assert(axs[k as int] == AxiomV::ClassAssertion(d.view_of(), iv));
                                if !direct {
                                    assert(in_hier(hierarchy@, d.view_of(), cv));
                                }
                                assert(asserted_label(axs, iv, d.view_of()));
                            }
                            return Ok(true);
                        }
                        proof {
                            assert(!in_hier(hierarchy@, d.view_of(), cv));
                        }
                    }
                },
                _ => {},
            }
            k += 1;
        }
        proof {
            assert forall|d: ClassV| asserted_label(axs, iv, d) implies !(d == cv || reaches(pairs, d, cv)) by {
                let q = choose|q: int| 0 <= q < axs.len() && axs[q] == AxiomV::ClassAssertion(d, iv);
                assert(axs[q] == AxiomV::ClassAssertion(d, iv));
            }
        }
        Ok(false)
    }

    /// The complete class hierarchy.
    pub fn classify_ontology(&mut self, ontology: &Ontology) -> (r: Result<Vec<(Class, Vec<Class>)>, OwlError>)
        ensures
            *final(self) == *old(self),
            r is Ok,
            hier_wf(r->Ok_0@),
            forall|a: ClassV| has_key(r->Ok_0@, a) <==> exists|b: ClassV| subclass_pairs(ontology.view_of().axioms).contains((a, b)),
            forall|a: ClassV, b: ClassV| in_hier(r->Ok_0@, a, b) <==> reaches(subclass_pairs(ontology.view_of().axioms), a, b),
    {
        self.compute_class_hierarchy(ontology)
    }

    /// Realization is not supported.
    pub fn realize_ontology(&mut self, _ontology: &Ontology) -> (r: Result<Vec<(Individual, Vec<Class>)>, OwlError>)
        ensures
            *final(self) == *old(self),
            r matches Err(OwlError::UnsupportedFeature(m)) && m@ == "Ontology realization not yet implemented"@,
    {
        Err(OwlError::UnsupportedFeature("Ontology realization not yet implemented".to_string()))
    }

    /// The statements that follow from the class hierarchy: SubClassOf for
    /// every pair of different classes the hierarchy connects, and the
    /// class assertions it carries upward.
    pub fn get_inferred_axioms(&mut self, ontology: &Ontology) -> (r: Result<Vec<Axiom>, OwlError>)
        ensures
            *final(self) == *old(self),
            r is Ok,
            forall|x: AxiomV| axiom_views(r->Ok_0@).contains(x) <==> lite_inferred(ontology.view_of(), x),
    {
        let hierarchy = match self.compute_class_hierarchy(ontology) {
            Ok(h) => h,
            Err(e) => { return Err(e); },
        };
        let ghost o = ontology.view_of();
        let ghost pairs = subclass_pairs(o.axioms);
        let mut inferred = subclass_statements(&hierarchy);
        let ghost after_sub = axiom_views(inferred@);
        let axs = &ontology.axioms;
        let ghost av = axiom_views(axs@);
        let mut k: usize = 0;
        while k < axs.len()
            invariant
                k <= axs@.len(),
                av == axiom_views(axs@),
                hier_wf(hierarchy@),
                forall|x: AxiomV| #[trigger] axiom_views(inferred@).contains(x) <==> (after_sub.contains(x) || assertion_consequence(av.take(k as int), hierarchy@, x)),
            decreases axs.len() - k,
        {
            let ghost t0 = av.take(k as int);
            let ghost t1 = av.take(k + 1);
            proof {
                assert(t1 =~= t0.push(av[k as int]));
                assert(av[k as int] == axs@[k as int].view_of());
            }
            let ghost start = axiom_views(inferred@);
            match &axs[k] {
                Axiom::ClassAssertion(class, individual) => {
                    match hier_get(&hierarchy, class) {
                        Some(supers) => {
                            push_assertions(&mut inferred, supers, class, individual);
                            proof {
                                let cv = class.view_of();
                                let iv = individual.node_view();
                                assert(av[k as int] == AxiomV::ClassAssertion(cv, iv));
                                lemma_consequence_step(t0, av[k as int], hierarchy@);
                                assert forall|x: AxiomV| #[trigger] axiom_views(inferred@).contains(x) <==> (after_sub.contains(x) || assertion_consequence(t1, hierarchy@, x)) by {
                                    let e = exists|w: int| 0 <= w < supers@.len() && #[trigger] supers@[w].view_of() != cv && x == AxiomV::ClassAssertion(supers@[w].view_of(), iv);
                                    let step = x matches AxiomV::ClassAssertion(d, i) && i == iv && d != cv && in_hier(hierarchy@, cv, d);
                                    assert(axiom_views(inferred@).contains(x) <==> (start.contains(x) || e));
                                    assert(start.contains(x) <==> (after_sub.contains(x) || assertion_consequence(t0, hierarchy@, x)));
                                    assert(assertion_consequence(t1, hierarchy@, x) <==> (assertion_consequence(t0, hierarchy@, x) || step));
                                    if e {
                                        let w = choose|w: int| 0 <= w < supers@.len() && #[trigger] supers@[w].view_of() != cv && x == AxiomV::ClassAssertion(supers@[w].view_of(), iv);
                                        assert(node_views(supers@)[w] == supers@[w].view_of());
                                        assert(node_views(supers@).contains(supers@[w].view_of()));
                                        assert(step);
                                    }
                                    match x {
                                        AxiomV::ClassAssertion(d, i) => {
                                            if i == iv && d != cv && in_hier(hierarchy@, cv, d) {
                                                assert(node_views(supers@).contains(d));
                                                let w = choose|w: int| 0 <= w < node_views(supers@).len() && node_views(supers@)[w] == d;
                                                assert(supers@[w].view_of() == d);
                                                assert(e);
                                            }
                                        },
                                        _ => {},
                                    }
                                }
                            }
                        },
                        None => {
                            proof {
                                lemma_consequence_step(t0, av[k as int], hierarchy@);
                            }
                        },
                    }
                },
                _ => {
                    proof {
                        lemma_consequence_step(t0, av[k as int], hierarchy@);
                    }
                },
            }
            k += 1;
        }
        proof {
            assert(av.take(av.len() as int) =~= av);
            assert(o.axioms == av);
            assert forall|x: AxiomV| #[trigger] axiom_views(inferred@).contains(x) <==> lite_inferred(o, x) by {
                assert(av.take(k as int) == av);
                lemma_consequence_final(av, hierarchy@, pairs, x);
                assert(axiom_views(inferred@).contains(x) <==> (after_sub.contains(x) || assertion_consequence(av, hierarchy@, x)));
                match x {
                    AxiomV::SubClassOf(a, b) => {
                        assert(after_sub.contains(x) <==> (a != b && in_hier(hierarchy@, a, b)));
                        assert(in_hier(hierarchy@, a, b) <==> reaches(pairs, a, b));
                    },
                    _ => {},
                }
            }
        }
        Ok(inferred)
    }
}

/// A SubClassOf statement for each pair of different classes of a hierarchy.
fn subclass_statements(hierarchy: &Vec<(Class, Vec<Class>)>) -> (r: Vec<Axiom>)
    ensures
        forall|x: AxiomV| #[trigger] axiom_views(r@).contains(x) <==> (x matches AxiomV::SubClassOf(a, b) && a != b && in_hier(hierarchy@, a, b)),
{
    let flat = hier_flatten(hierarchy);
    let ghost ev = edge_views(flat@);
    let mut inferred: Vec<Axiom> = Vec::new();
    proof {
        assert(axiom_views(inferred@) =~= Seq::<AxiomV>::empty());
    }
    let mut k: usize = 0;
    while k < flat.len()
        invariant
            k <= flat@.len(),
            ev == edge_views(flat@),
            forall|x: AxiomV| #[trigger] axiom_views(inferred@).contains(x) <==> exists|q: int| 0 <= q < k && ev[q].0 != ev[q].1
                && x == AxiomV::SubClassOf(ev[q].0, ev[q].1),
        decreases flat.len() - k,
    {
        let ghost before = axiom_views(inferred@);
        let ghost ek = ev[k as int];
        proof {
            assert(ek == (flat@[k as int].0.node_view(), flat@[k as int].1.node_view()));
        }
        let different = !flat[k].0.same_node(&flat[k].1);
        if different {
            inferred.push(Axiom::SubClassOf(flat[k].0.clone(), flat[k].1.clone()));
            proof {
                assert(axiom_views(inferred@) =~= before.push(AxiomV::SubClassOf(ek.0, ek.1)));
            }
        }
        proof {
            lemma_push_contains(before, AxiomV::SubClassOf(ek.0, ek.1));
            let now = axiom_views(inferred@);
            assert(different ==> now == before.push(AxiomV::SubClassOf(ek.0, ek.1)));
            assert(!different ==> now == before);
            assert forall|x: AxiomV| now.contains(x) implies exists|q: int| 0 <= q < k + 1 && ev[q].0 != ev[q].1
                && x == AxiomV::SubClassOf(ev[q].0, ev[q].1) by {
                if before.contains(x) {
                    let q = choose|q: int| 0 <= q < k && ev[q].0 != ev[q].1 && x == AxiomV::SubClassOf(ev[q].0, ev[q].1);
                    assert(0 <= q < k + 1 && ev[q].0 != ev[q].1 && x == AxiomV::SubClassOf(ev[q].0, ev[q].1));
                } else {
                    assert(different && x == AxiomV::SubClassOf(ek.0, ek.1));
                    let q = k as int;
                    assert(0 <= q < k + 1 && ev[q].0 != ev[q].1 && x == AxiomV::SubClassOf(ev[q].0, ev[q].1));
                }
            }
            assert forall|x: AxiomV| (exists|q: int| 0 <= q < k + 1 && ev[q].0 != ev[q].1
                && x == AxiomV::SubClassOf(ev[q].0, ev[q].1)) implies now.contains(x) by {
                let q = choose|q: int| 0 <= q < k + 1 && ev[q].0 != ev[q].1 && x == AxiomV::SubClassOf(ev[q].0, ev[q].1);
                if q < k {
                    assert(before.contains(x));
                } else {
                    assert(different);
                }
            }
        }
        k += 1;
    }
    proof {
        assert forall|x: AxiomV| #[trigger] axiom_views(inferred@).contains(x) <==> (x matches AxiomV::SubClassOf(a, b) && a != b && in_hier(hierarchy@, a, b)) by {
            match x {
                AxiomV::SubClassOf(a, b) => {
                    lemma_hier_edges_contains(hierarchy@, a, b);
                    if axiom_views(inferred@).contains(x) {
                        let q = choose|q: int| 0 <= q < flat@.len() && ev[q].0 != ev[q].1 && x == AxiomV::SubClassOf(ev[q].0, ev[q].1);
                        assert(hier_edges(hierarchy@)[q] == (a, b));
                    }
                    if a != b && in_hier(hierarchy@, a, b) {
                        let q = choose|q: int| 0 <= q < ev.len() && ev[q] == (a, b);
                        assert(ev[q].0 != ev[q].1 && x == AxiomV::SubClassOf(ev[q].0, ev[q].1));
                    }
                },
                _ => {
                    if axiom_views(inferred@).contains(x) {
                        let q = choose|q: int| 0 <= q < flat@.len() && ev[q].0 != ev[q].1 && x == AxiomV::SubClassOf(ev[q].0, ev[q].1);
                    }
                },
            }
        }
    }
    inferred
}

/// Append a class assertion of `individual` for each class of `supers`
/// other than `class`.
fn push_assertions(out: &mut Vec<Axiom>, supers: &Vec<Class>, class: &Class, individual: &Individual)
    ensures
        forall|x: AxiomV| #[trigger] axiom_views(final(out)@).contains(x) <==> (axiom_views(old(out)@).contains(x) || exists|w: int| 0 <= w < supers@.len()
            && #[trigger] supers@[w].view_of() != class.view_of() && x == AxiomV::ClassAssertion(supers@[w].view_of(), individual.node_view())),
{
    let ghost start = axiom_views(out@);
    let ghost cv = class.view_of();
    let ghost iv = individual.node_view();
    let mut j: usize = 0;
    while j < supers.len()
        invariant
            j <= supers@.len(),
            start == axiom_views(old(out)@),
            cv == class.view_of(),
            iv == individual.node_view(),
            forall|x: AxiomV| #[trigger] axiom_views(out@).contains(x) <==> (start.contains(x) || exists|w: int| 0 <= w < j
                && #[trigger] supers@[w].view_of() != cv && x == AxiomV::ClassAssertion(supers@[w].view_of(), iv)),
        decreases supers.len() - j,
    {
        let ghost b2 = axiom_views(out@);
        let ghost dj = supers@[j as int].view_of();
                let different = !supers[j].same_node(class);
        if different {
            out.push(Axiom::ClassAssertion(supers[j].clone(), individual.clone()));
            proof {
                assert(axiom_views(out@) =~= b2.push(AxiomV::ClassAssertion(dj, iv)));
            }
        }
        proof {
            lemma_push_contains(b2, AxiomV::ClassAssertion(dj, iv));
            assert forall|x: AxiomV| #[trigger] axiom_views(out@).contains(x) <==> (start.contains(x) || exists|w: int| 0 <= w < j + 1
                && #[trigger] supers@[w].view_of() != cv && x == AxiomV::ClassAssertion(supers@[w].view_of(), iv)) by {
                if exists|w: int| 0 <= w < j + 1 && #[trigger] supers@[w].view_of() != cv && x == AxiomV::ClassAssertion(supers@[w].view_of(), iv) {
                    let w = choose|w: int| 0 <= w < j + 1 && #[trigger] supers@[w].view_of() != cv && x == AxiomV::ClassAssertion(supers@[w].view_of(), iv);
                    if w < j {
                        assert(b2.contains(x));
                    } else {
                        assert(different);
                    }
                }
                if start.contains(x) {
                    assert(b2.contains(x));
                }
                if axiom_views(out@).contains(x) {
                    if b2.contains(x) {
                        if !start.contains(x) {
                            let w = choose|w: int| 0 <= w < j && #[trigger] supers@[w].view_of() != cv && x == AxiomV::ClassAssertion(supers@[w].view_of(), iv);
                            assert(0 <= w < j + 1);
                        }
                    } else {
                        assert(different && x == AxiomV::ClassAssertion(dj, iv));
                        assert(supers@[j as int].view_of() != cv);
                    }
                }
            }
        }
        j += 1;
    }
}

proof fn lemma_push_contains<A>(s: Seq<A>, a: A)
    ensures
        forall|x: A| #[trigger] s.push(a).contains(x) <==> (s.contains(x) || x == a),
{
    assert forall|x: A| #[trigger] s.push(a).contains(x) <==> (s.contains(x) || x == a) by {
        if s.push(a).contains(x) {
            let i = choose|i: int| 0 <= i < s.push(a).len() && s.push(a)[i] == x;
            if i < s.len() {
                assert(s[i] == x);
            }
        }
        if s.contains(x) {
            let i = choose|i: int| 0 <= i < s.len() && s[i] == x;
            assert(s.push(a)[i] == x);
        }
        if x == a {
            assert(s.push(a)[s.len() as int] == x);
        }
    }
}

proof fn lemma_consequence_step(t0: Seq<AxiomV>, a: AxiomV, h: Seq<(Class, Vec<Class>)>)
    ensures
        forall|x: AxiomV| assertion_consequence(t0.push(a), h, x) <==> (assertion_consequence(t0, h, x)
            || (a is ClassAssertion && (x matches AxiomV::ClassAssertion(d, i) && i == a->ClassAssertion_1 && d != a->ClassAssertion_0
                && in_hier(h, a->ClassAssertion_0, d)))),
{
    let t1 = t0.push(a);
    assert forall|x: AxiomV| assertion_consequence(t1, h, x) <==> (assertion_consequence(t0, h, x)
        || (a is ClassAssertion && (x matches AxiomV::ClassAssertion(d, i) && i == a->ClassAssertion_1 && d != a->ClassAssertion_0
            && in_hier(h, a->ClassAssertion_0, d)))) by {
        if assertion_consequence(t1, h, x) {
            let q = choose|q: int| 0 <= q < t1.len() && #[trigger] t1[q] is ClassAssertion && (x matches AxiomV::ClassAssertion(d, i)
                && i == t1[q]->ClassAssertion_1 && d != t1[q]->ClassAssertion_0 && in_hier(h, t1[q]->ClassAssertion_0, d));
            if q < t0.len() { assert(t0[q] == t1[q]); }
        }
        if assertion_consequence(t0, h, x) {
            let q = choose|q: int| 0 <= q < t0.len() && #[trigger] t0[q] is ClassAssertion && (x matches AxiomV::ClassAssertion(d, i)
                && i == t0[q]->ClassAssertion_1 && d != t0[q]->ClassAssertion_0 && in_hier(h, t0[q]->ClassAssertion_0, d));
            assert(t1[q] == t0[q]);
        }
        if a is ClassAssertion && (x matches AxiomV::ClassAssertion(d, i) && i == a->ClassAssertion_1 && d != a->ClassAssertion_0
            && in_hier(h, a->ClassAssertion_0, d)) {
            assert(t1[t0.len() as int] == a);
        }
    }
}

proof fn lemma_consequence_final(av: Seq<AxiomV>, h: Seq<(Class, Vec<Class>)>, pairs: Seq<(ClassV, ClassV)>, x: AxiomV)
    requires
        forall|a: ClassV, b: ClassV| in_hier(h, a, b) <==> reaches(pairs, a, b),
    ensures
        assertion_consequence(av, h, x) <==> (x matches AxiomV::ClassAssertion(d, i) && exists|c: ClassV| asserted_label(av, i, c) && c != d && reaches(pairs, c, d)),
{
    match x {
        AxiomV::ClassAssertion(d, i) => {
            if assertion_consequence(av, h, x) {
                let q = choose|q: int| 0 <= q < av.len() && #[trigger] av[q] is ClassAssertion && (x matches AxiomV::ClassAssertion(d2, i2)
                    && i2 == av[q]->ClassAssertion_1 && d2 != av[q]->ClassAssertion_0 && in_hier(h, av[q]->ClassAssertion_0, d2));
                let c = av[q]->ClassAssertion_0;
                assert(av[q] == AxiomV::ClassAssertion(c, i));
                assert(asserted_label(av, i, c));
            }
            if exists|c: ClassV| asserted_label(av, i, c) && c != d && reaches(pairs, c, d) {
                let c = choose|c: ClassV| asserted_label(av, i, c) && c != d && reaches(pairs, c, d);
                let q = choose|q: int| 0 <= q < av.len() && av[q] == AxiomV::ClassAssertion(c, i);
                assert(in_hier(h, c, d));
                assert(av[q] is ClassAssertion);
            }
        },
        _ => {
            if assertion_consequence(av, h, x) {
                let q = choose|q: int| 0 <= q < av.len() && #[trigger] av[q] is ClassAssertion && (x matches AxiomV::ClassAssertion(d2, i2)
                    && i2 == av[q]->ClassAssertion_1 && d2 != av[q]->ClassAssertion_0 && in_hier(h, av[q]->ClassAssertion_0, d2));
            }
        },
    }
}

/// Subsumption is transitive: a subclass of a subclass of `c` is a
/// subclass of `c`.
pub proof fn law_subsumption_transitive(axs: Seq<AxiomV>, a: ClassV, b: ClassV, c: ClassV)
    requires
        reaches(subclass_pairs(axs), a, b),
        reaches(subclass_pairs(axs), b, c),
    ensures
        reaches(subclass_pairs(axs), a, c),
{
    crate::closure::lemma_reaches_transitive(subclass_pairs(axs), a, b, c);
}

/// Superclasses and subclasses agree: `b` is listed among the superclasses
/// of `a` exactly when `a` is listed among the subclasses of `b`, and for
/// two different classes exactly when `a` is subsumed by `b`.
pub proof fn law_sub_super_agree(axs: Seq<AxiomV>, a: ClassV, b: ClassV)
    ensures
        (b == a || reaches(subclass_pairs(axs), a, b)) <==> (a == b || reaches(subclass_pairs(axs), a, b)),
        a != b ==> ((b == a || reaches(subclass_pairs(axs), a, b)) <==> reaches(subclass_pairs(axs), a, b)),
{
}

/// Individual `i` is stated to belong to `c`, or to a class that reaches
/// `c` through SubClassOf statements.
pub open spec fn instance_by_statement(axs: Seq<AxiomV>, i: Seq<char>, c: ClassV) -> bool {
    exists|d: ClassV| #[trigger] asserted_label(axs, i, d) && (d == c || reaches(subclass_pairs(axs), d, c))
}

/// Classes that a loaded owl:equivalentClass triple relates subsume each
/// other: after loading, each is subsumed by the other.
pub proof fn law_equivalent_classes_subsume(ts: Seq<TripleView>, k: int)
    requires
        0 <= k < ts.len(),
        ts[k].predicate == owl_equivalent_class_iri(),
    ensures
        reaches(subclass_pairs(load_spec(ts).axioms), ClassV::Named(ts[k].subject), ClassV::Named(ts[k].object)),
        reaches(subclass_pairs(load_spec(ts).axioms), ClassV::Named(ts[k].object), ClassV::Named(ts[k].subject)),
{
    let axs = load_spec(ts).axioms;
    let a = ClassV::Named(ts[k].subject);
    let b = ClassV::Named(ts[k].object);
    law_equivalent_class_both_ways(ts, k);
    super::tableau::lemma_subclass_pairs(axs);
    let i = choose|i: int| 0 <= i < axs.len() && axs[i] == AxiomV::SubClassOf(a, b);
    let j = choose|j: int| 0 <= j < axs.len() && axs[j] == AxiomV::SubClassOf(b, a);
    assert(subclass_pairs(axs).contains((a, b)));
    assert(subclass_pairs(axs).contains((b, a)));
    crate::closure::lemma_edge_reaches(subclass_pairs(axs), a, b);
    crate::closure::lemma_edge_reaches(subclass_pairs(axs), b, a);
}

/// Instance checking follows the statements: an individual stated to be in
/// a class is an instance of it, an instance of a class is an instance of
/// each class it is stated a subclass of, and an individual no class
/// assertion mentions is an instance of no class.
pub proof fn law_lite_instances(axs: Seq<AxiomV>, i: Seq<char>, c: ClassV, d: ClassV)
    ensures
        axs.contains(AxiomV::ClassAssertion(c, i)) ==> instance_by_statement(axs, i, c),
        instance_by_statement(axs, i, c) && axs.contains(AxiomV::SubClassOf(c, d)) ==> instance_by_statement(axs, i, d),
        (forall|k: int| 0 <= k < axs.len() ==> !(#[trigger] axs[k] matches AxiomV::ClassAssertion(_, j) && j == i))
            ==> !instance_by_statement(axs, i, c),
{
    super::tableau::lemma_subclass_pairs(axs);
    if axs.contains(AxiomV::ClassAssertion(c, i)) {
        let k = choose|k: int| 0 <= k < axs.len() && axs[k] == AxiomV::ClassAssertion(c, i);
        assert(asserted_label(axs, i, c));
    }
    if instance_by_statement(axs, i, c) && axs.contains(AxiomV::SubClassOf(c, d)) {
        let e = choose|e: ClassV| #[trigger] asserted_label(axs, i, e) && (e == c || reaches(subclass_pairs(axs), e, c));
        let k = choose|k: int| 0 <= k < axs.len() && axs[k] == AxiomV::SubClassOf(c, d);
        assert(subclass_pairs(axs).contains((c, d)));
        if e == c {
            crate::closure::lemma_edge_reaches(subclass_pairs(axs), c, d);
        } else {
            crate::closure::lemma_reaches_step(subclass_pairs(axs), e, c, d);
        }
        assert(asserted_label(axs, i, e));
    }
    if instance_by_statement(axs, i, c) {
        let e = choose|e: ClassV| #[trigger] asserted_label(axs, i, e) && (e == c || reaches(subclass_pairs(axs), e, c));
        let k = choose|k: int| 0 <= k < axs.len() && axs[k] == AxiomV::ClassAssertion(e, i);
        assert(axs[k] matches AxiomV::ClassAssertion(_, j) && j == i);
    }
}

} // verus!
