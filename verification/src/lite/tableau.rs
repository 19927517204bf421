//! Completion graph and tableau reasoner for OWL Lite: consistency of the
//! asserted facts and the subsumption hierarchy of the classes.

use vstd::prelude::*;
use crate::closure::{GraphNode, node_views, distinct, reaches, contains_node};
use crate::hierarchy::{in_hier, has_key, hier_wf, hier_edges, hier_find, hier_get, hier_add, hier_reset, hier_has, hier_close, lemma_hier_edges_contains};
use crate::nodeset::{insert_node, seq_insert, lemma_seq_insert};
use super::model::{Ontology, OntologyV, Class, ClassV, Property, PropertyV, Individual, OwlIri, Axiom, AxiomV, axiom_views};
use super::OwlError;

verus! {

/// A property edge to an individual, as a value.
pub struct LinkV {
    pub property: PropertyV,
    pub target: Seq<char>,
}

/// A property edge to an individual.
#[derive(Debug)]
pub struct Link {
    pub property: Property,
    pub target: Individual,
}

impl GraphNode for Link {
    type V = LinkV;

    open spec fn node_view(&self) -> LinkV {
        LinkV { property: self.property.node_view(), target: self.target.node_view() }
    }

    fn same_node(&self, other: &Self) -> (r: bool) {
        self.property.same_node(&other.property) && self.target.same_node(&other.target)
    }

    fn copy_node(&self) -> (r: Self) {
        Link { property: self.property.copy_node(), target: self.target.copy_node() }
    }
}

/// Completion graph: one node per individual, with the classes it belongs
/// to and its property edges.
#[derive(Debug)]
pub struct CompletionGraph {
    labels: Vec<(Individual, Vec<Class>)>,
    edges: Vec<(Individual, Vec<Link>)>,
}

impl CompletionGraph {
    /// The graph has a node for individual `i`.
    pub closed spec fn has_node(&self, i: Seq<char>) -> bool {
        has_key(self.labels@, i)
    }

    /// Individual `i` has a node labelled with class `c`.
    pub closed spec fn labeled(&self, i: Seq<char>, c: ClassV) -> bool {
        in_hier(self.labels@, i, c)
    }

    /// Individual `i` has a node with a `p` edge to `j`.
    pub closed spec fn linked(&self, i: Seq<char>, p: PropertyV, j: Seq<char>) -> bool {
        in_hier(self.edges@, i, LinkV { property: p, target: j })
    }

    pub closed spec fn wf(&self) -> bool {
        &&& hier_wf(self.labels@)
        &&& hier_wf(self.edges@)
        &&& forall|i: Seq<char>| has_key(self.labels@, i) <==> has_key(self.edges@, i)
    }

    /// Some node is labelled owl:Nothing.
    pub open spec fn has_clash(&self) -> bool {
        exists|i: Seq<char>| self.labeled(i, ClassV::Nothing)
    }

    /// A graph without nodes.
    pub fn new() -> (r: Self)
        ensures
            r.wf(),
            forall|i: Seq<char>| !r.has_node(i),
            forall|i: Seq<char>, c: ClassV| !r.labeled(i, c),
            forall|i: Seq<char>, p: PropertyV, j: Seq<char>| !r.linked(i, p, j),
    {
        CompletionGraph { labels: Vec::new(), edges: Vec::new() }
    }

    /// Give every individual of the ontology a fresh node without labels or
    /// edges, replacing the node it had.
    pub fn initialize(&mut self, ontology: &Ontology)
        requires
            old(self).wf(),
        ensures
            final(self).wf(),
            forall|i: Seq<char>| final(self).has_node(i) <==> (old(self).has_node(i) || ontology.view_of().individuals.contains(i)),
            forall|i: Seq<char>, c: ClassV| final(self).labeled(i, c) <==> (old(self).labeled(i, c) && !ontology.view_of().individuals.contains(i)),
            forall|i: Seq<char>, p: PropertyV, j: Seq<char>| final(self).linked(i, p, j) <==> (old(self).linked(i, p, j) && !ontology.view_of().individuals.contains(i)),
    {
        let inds = &ontology.individuals;
        let ghost iv = node_views(inds@);
        let mut k: usize = 0;
        while k < inds.len()
            invariant
                k <= inds@.len(),
                iv == node_views(inds@),
                self.wf(),
                forall|i: Seq<char>| self.has_node(i) <==> (old(self).has_node(i) || iv.take(k as int).contains(i)),
                forall|i: Seq<char>, c: ClassV| self.labeled(i, c) <==> (old(self).labeled(i, c) && !iv.take(k as int).contains(i)),
                forall|i: Seq<char>, p: PropertyV, j: Seq<char>| self.linked(i, p, j) <==> (old(self).linked(i, p, j) && !iv.take(k as int).contains(i)),
            decreases inds.len() - k,
        {
            proof {
                lemma_take_push(iv, k as int);
            }
            let ind1 = inds[k].copy_node();
            let ind2 = inds[k].copy_node();
            proof {
                assert(ind1.node_view() == iv[k as int]);
            }
            let ghost g0 = *self;
            hier_reset(&mut self.labels, ind1);
            hier_reset(&mut self.edges, ind2);
            proof {
                assert forall|i: Seq<char>| self.has_node(i) <==> (old(self).has_node(i) || iv.take(k + 1).contains(i)) by {
                    assert(g0.has_node(i) <==> (old(self).has_node(i) || iv.take(k as int).contains(i)));
                }
            }
            k += 1;
        }
        proof {
            assert(iv.take(iv.len() as int) =~= iv);
        }
    }

    /// Label a node with a class; true when the label is new. Nothing
    /// happens to an individual without a node.
    pub fn add_label(&mut self, individual: &Individual, class: Class) -> (r: bool)
        requires
            old(self).wf(),
        ensures
            final(self).wf(),
            forall|i: Seq<char>| final(self).has_node(i) == old(self).has_node(i),
            forall|i: Seq<char>, c: ClassV| final(self).labeled(i, c) <==> (old(self).labeled(i, c)
                || (old(self).has_node(i) && i == individual.node_view() && c == class.node_view())),
            forall|i: Seq<char>, p: PropertyV, j: Seq<char>| final(self).linked(i, p, j) == old(self).linked(i, p, j),
            r == (old(self).has_node(individual.node_view()) && !old(self).labeled(individual.node_view(), class.node_view())),
    {
        if hier_find(&self.labels, individual).is_none() {
            return false;
        }
        let had = hier_has(&self.labels, individual, &class);
        hier_add(&mut self.labels, individual.copy_node(), class);
        !had
    }

    /// Whether the node of an individual is labelled with a class.
    pub fn has_label(&self, individual: &Individual, class: &Class) -> (r: bool)
        requires
            self.wf(),
        ensures
            r == self.labeled(individual.node_view(), class.node_view()),
    {
        hier_has(&self.labels, individual, class)
    }

    /// Add a property edge from a node; nothing happens to an individual
    /// without a node.
    pub fn add_edge(&mut self, from: &Individual, property: Property, to: &Individual)
        requires
            old(self).wf(),
        ensures
            final(self).wf(),
            forall|i: Seq<char>| final(self).has_node(i) == old(self).has_node(i),
            forall|i: Seq<char>, c: ClassV| final(self).labeled(i, c) == old(self).labeled(i, c),
            forall|i: Seq<char>, p: PropertyV, j: Seq<char>| final(self).linked(i, p, j) <==> (old(self).linked(i, p, j)
                || (old(self).has_node(i) && i == from.node_view() && p == property.node_view() && j == to.node_view())),
    {
        if hier_find(&self.edges, from).is_none() {
            return;
        }
        let link = Link { property, target: to.copy_node() };
        hier_add(&mut self.edges, from.copy_node(), link);
    }

    /// The individuals that a node reaches by one edge of a property, each
    /// once.
    pub fn get_successors(&self, individual: &Individual, property: &Property) -> (r: Vec<Individual>)
        requires
            self.wf(),
        ensures
            distinct(node_views(r@)),
            forall|j: Seq<char>| node_views(r@).contains(j) <==> self.linked(individual.node_view(), property.node_view(), j),
    {
        let mut out: Vec<Individual> = Vec::new();
        proof {
            assert(node_views(out@) =~= Seq::<Seq<char>>::empty());
        }
        match hier_get(&self.edges, individual) {
            Some(links) => {
                let mut k: usize = 0;
                while k < links.len()
                    invariant
                        k <= links@.len(),
                        distinct(node_views(out@)),
                        forall|j: Seq<char>| node_views(out@).contains(j) <==> exists|q: int| 0 <= q < k
                            && #[trigger] links@[q].target.node_view() == j && links@[q].property.node_view() == property.node_view(),
                    decreases links.len() - k,
                {
                    let ghost before = node_views(out@);
                    let ghost tk = links@[k as int].target.node_view();
                    let m = links[k].property.same_node(property);
                    if m {
                        insert_node(&mut out, links[k].target.copy_node());
                    }
                    proof {
                        lemma_seq_insert(before, tk);
                        assert forall|j: Seq<char>| node_views(out@).contains(j) <==> exists|q: int| 0 <= q < k + 1
                            && #[trigger] links@[q].target.node_view() == j && links@[q].property.node_view() == property.node_view() by {
                            if exists|q: int| 0 <= q < k + 1 && #[trigger] links@[q].target.node_view() == j && links@[q].property.node_view() == property.node_view() {
                                let q = choose|q: int| 0 <= q < k + 1 && #[trigger] links@[q].target.node_view() == j && links@[q].property.node_view() == property.node_view();
                                if q < k {
                                    assert(before.contains(j));
                                } else {
                                    assert(m);
                                    assert(j == tk);
                                }
                            }
                            if node_views(out@).contains(j) {
                                if before.contains(j) {
                                    let q = choose|q: int| 0 <= q < k && #[trigger] links@[q].target.node_view() == j && links@[q].property.node_view() == property.node_view();
                                    assert(0 <= q < k + 1);
                                } else {
                                    assert(m && j == tk);
                                    assert(links@[k as int].target.node_view() == j);
                                }
                            }
                        }
                    }
                    k += 1;
                }
                proof {
                    assert forall|j: Seq<char>| node_views(out@).contains(j) <==> self.linked(individual.node_view(), property.node_view(), j) by {
                        let lv = LinkV { property: property.node_view(), target: j };
                        if node_views(out@).contains(j) {
                            let q = choose|q: int| 0 <= q < links@.len() && #[trigger] links@[q].target.node_view() == j && links@[q].property.node_view() == property.node_view();
                            assert(node_views(links@)[q] == lv);
                            assert(node_views(links@).contains(lv));
                        }
                        if self.linked(individual.node_view(), property.node_view(), j) {
                            assert(node_views(links@).contains(lv));
                            let q = choose|q: int| 0 <= q < node_views(links@).len() && node_views(links@)[q] == lv;
                            assert(links@[q].target.node_view() == j);
                        }
                    }
                }
            },
            None => {},
        }
        out
    }

    /// Whether no node is labelled owl:Nothing.
    pub fn check_contradictions(&self) -> (r: Result<bool, OwlError>)
        requires
            self.wf(),
        ensures
            r == Ok::<bool, OwlError>(!self.has_clash()),
    {
        let nothing = Class::Nothing;
        let mut k: usize = 0;
        while k < self.labels.len()
            invariant
                k <= self.labels@.len(),
                hier_wf(self.labels@),
                nothing.node_view() == ClassV::Nothing,
                forall|q: int| 0 <= q < k ==> !node_views(#[trigger] self.labels@[q].1@).contains(ClassV::Nothing),
            decreases self.labels.len() - k,
        {
            if contains_node(&self.labels[k].1, &nothing) {
                proof {
                    assert(self.labeled(self.labels@[k as int].0.node_view(), ClassV::Nothing));
                }
                return Ok(false);
            }
            k += 1;
        }
        proof {
            assert forall|i: Seq<char>| !self.labeled(i, ClassV::Nothing) by {
                if self.labeled(i, ClassV::Nothing) {
                    let q = choose|q: int| 0 <= q < self.labels@.len() && self.labels@[q].0.node_view() == i && #[trigger] node_views(self.labels@[q].1@).contains(ClassV::Nothing);
                }
            }
        }
        Ok(true)
    }
}

/// The (subclass, superclass) pairs of the SubClassOf statements, in order.
pub open spec fn subclass_pairs(axs: Seq<AxiomV>) -> Seq<(ClassV, ClassV)>
    decreases axs.len(),
{
    if axs.len() == 0 {
        Seq::empty()
    } else {
        let rest = subclass_pairs(axs.drop_last());
        match axs.last() {
            AxiomV::SubClassOf(a, b) => rest.push((a, b)),
            _ => rest,
        }
    }
}

pub proof fn lemma_subclass_pairs(axs: Seq<AxiomV>)
    ensures
        forall|a: ClassV, b: ClassV| subclass_pairs(axs).contains((a, b)) <==> exists|k: int| 0 <= k < axs.len() && axs[k] == AxiomV::SubClassOf(a, b),
    decreases axs.len(),
{
    if axs.len() > 0 {
        let p = axs.drop_last();
        lemma_subclass_pairs(p);
        let rest = subclass_pairs(p);
        assert forall|a: ClassV, b: ClassV| subclass_pairs(axs).contains((a, b)) <==> exists|k: int| 0 <= k < axs.len() && axs[k] == AxiomV::SubClassOf(a, b) by {
            if exists|k: int| 0 <= k < axs.len() && axs[k] == AxiomV::SubClassOf(a, b) {
                let k = choose|k: int| 0 <= k < axs.len() && axs[k] == AxiomV::SubClassOf(a, b);
                if k < p.len() {
                    assert(p[k] == axs[k]);
                    assert(rest.contains((a, b)));
                    let i = choose|i: int| 0 <= i < rest.len() && rest[i] == (a, b);
                    match axs.last() {
                        AxiomV::SubClassOf(x, y) => {
                            assert(subclass_pairs(axs) == rest.push((x, y)));
                            assert(subclass_pairs(axs)[i] == (a, b));
                        },
                        _ => {
                            assert(subclass_pairs(axs) == rest);
                        },
                    }
                } else {
                    assert(subclass_pairs(axs) == rest.push((a, b)));
                    assert(rest.push((a, b))[rest.len() as int] == (a, b));
                }
            }
            if subclass_pairs(axs).contains((a, b)) {
                let i = choose|i: int| 0 <= i < subclass_pairs(axs).len() && subclass_pairs(axs)[i] == (a, b);
                if i < rest.len() {
                    match axs.last() {
                        AxiomV::SubClassOf(x, y) => {
                            assert(subclass_pairs(axs) == rest.push((x, y)));
                            assert(subclass_pairs(axs)[i] == rest[i]);
                        },
                        _ => {
                            assert(subclass_pairs(axs) == rest);
                        },
                    }
                    assert(rest[i] == (a, b));
                    assert(rest.contains((a, b)));
                    let k = choose|k: int| 0 <= k < p.len() && p[k] == AxiomV::SubClassOf(a, b);
                    assert(axs[k] == p[k]);
                } else {
                    assert(axs[axs.len() - 1] == AxiomV::SubClassOf(a, b));
                }
            }
        }
    }
}

/// Individual `i` is stated to belong to class `c`.
pub open spec fn asserted_label(axs: Seq<AxiomV>, i: Seq<char>, c: ClassV) -> bool {
    exists|k: int| 0 <= k < axs.len() && axs[k] == AxiomV::ClassAssertion(c, i)
}

/// Individual `i` is stated to have a `p` edge to `j`.
pub open spec fn asserted_link(axs: Seq<AxiomV>, i: Seq<char>, p: PropertyV, j: Seq<char>) -> bool {
    exists|k: int| 0 <= k < axs.len() && axs[k] == AxiomV::ObjectPropertyAssertion(p, i, j)
}

/// Some statement adds to a graph: an edge, or a label that a node lacks.
pub open spec fn assertions_change(axs: Seq<AxiomV>, g: CompletionGraph) -> bool {
    exists|k: int| 0 <= k < axs.len() && (axs[k] is ObjectPropertyAssertion || (axs[k] matches AxiomV::ClassAssertion(c, i)
        && g.has_node(i) && !g.labeled(i, c)))
}

/// Tableau reasoner for OWL Lite.
#[derive(Debug)]
pub struct TableauReasoner {
    graph: CompletionGraph,
}

impl TableauReasoner {
    /// The completion graph of the last consistency check.
    pub closed spec fn completion(&self) -> CompletionGraph {
        self.graph
    }

    pub closed spec fn wf(&self) -> bool {
        self.graph.wf()
    }

    /// A reasoner with an empty completion graph.
    pub fn new() -> (r: Self)
        ensures
            r.wf(),
            forall|i: Seq<char>| !r.completion().has_node(i),
    {
        TableauReasoner { graph: CompletionGraph::new() }
    }

    /// Whether no individual is forced into owl:Nothing: the graph starts
    /// empty, the individuals of the ontology get nodes, the stated class and property
    /// assertions are applied, and the graph is checked for a clash.
    pub fn is_consistent(&mut self, ontology: &Ontology) -> (r: Result<bool, OwlError>)
        requires
            old(self).wf(),
        ensures
            final(self).wf(),
            forall|i: Seq<char>| final(self).completion().has_node(i) <==> ontology.view_of().individuals.contains(i),
            forall|i: Seq<char>, c: ClassV| final(self).completion().labeled(i, c) <==>
                (final(self).completion().has_node(i) && asserted_label(ontology.view_of().axioms, i, c)),
            forall|i: Seq<char>, p: PropertyV, j: Seq<char>| final(self).completion().linked(i, p, j) <==>
                (final(self).completion().has_node(i) && asserted_link(ontology.view_of().axioms, i, p, j)),
            r == Ok::<bool, OwlError>(!final(self).completion().has_clash()),
    {
        self.graph = CompletionGraph::new();
        self.graph.initialize(ontology);
        match self.apply_initial_assertions(ontology) {
            Ok(_) => {},
            Err(e) => { return Err(e); },
        }
        let ghost g1 = self.graph;
        let mut changed = true;
        while changed
            invariant
                self.graph == g1,
                self.wf(),
            decreases if changed { 1int } else { 0int },
        {
            changed = false;
            match self.apply_conjunction_rule() {
                Ok(c) => { changed = changed || c; },
                Err(e) => { return Err(e); },
            }
            match self.apply_existential_rule(ontology) {
                Ok(c) => { changed = changed || c; },
                Err(e) => { return Err(e); },
            }
            match self.apply_universal_rule(ontology) {
                Ok(c) => { changed = changed || c; },
                Err(e) => { return Err(e); },
            }
        }
        self.graph.check_contradictions()
    }

    /// Label each individual with its stated classes and add its stated
    /// property edges; true when the graph changed.
    fn apply_initial_assertions(&mut self, ontology: &Ontology) -> (r: Result<bool, OwlError>)
        requires
            old(self).wf(),
        ensures
            final(self).wf(),
            forall|i: Seq<char>| final(self).completion().has_node(i) == old(self).completion().has_node(i),
            forall|i: Seq<char>, c: ClassV| final(self).completion().labeled(i, c) <==> (old(self).completion().labeled(i, c)
                || (old(self).completion().has_node(i) && asserted_label(ontology.view_of().axioms, i, c))),
            forall|i: Seq<char>, p: PropertyV, j: Seq<char>| final(self).completion().linked(i, p, j) <==> (old(self).completion().linked(i, p, j)
                || (old(self).completion().has_node(i) && asserted_link(ontology.view_of().axioms, i, p, j))),
            r == Ok::<bool, OwlError>(assertions_change(ontology.view_of().axioms, old(self).completion())),
    {
        let axs = &ontology.axioms;
        let ghost av = axiom_views(axs@);
        let ghost g0 = self.graph;
        let mut changed = false;
        let mut k: usize = 0;
        while k < axs.len()
            invariant
                k <= axs@.len(),
                av == axiom_views(axs@),
                self.wf(),
                forall|i: Seq<char>| self.graph.has_node(i) == g0.has_node(i),
                forall|i: Seq<char>, c: ClassV| self.graph.labeled(i, c) <==> (g0.labeled(i, c)
                    || (g0.has_node(i) && asserted_label(av.take(k as int), i, c))),
                forall|i: Seq<char>, p: PropertyV, j: Seq<char>| self.graph.linked(i, p, j) <==> (g0.linked(i, p, j)
                    || (g0.has_node(i) && asserted_link(av.take(k as int), i, p, j))),
                changed == assertions_change(av.take(k as int), g0),
            decreases axs.len() - k,
        {
            let ghost gk = self.graph;
            let ghost t0 = av.take(k as int);
            let ghost t1 = av.take(k + 1);
            proof {
                assert(t1 =~= t0.push(av[k as int]));
                assert(av[k as int] == axs@[k as int].view_of());
                lemma_take_push(av, k as int);
            }
            match &axs[k] {
                Axiom::ClassAssertion(class, individual) => {
                    let added = self.graph.add_label(individual, class.clone());
                    changed = changed || added;
                },
                Axiom::ObjectPropertyAssertion(prop, i1, i2) => {
                    self.graph.add_edge(i1, prop.clone(), i2);
                    changed = true;
                },
                _ => {},
            }
            proof {
                assert forall|i: Seq<char>, c: ClassV| asserted_label(t1, i, c) <==> (asserted_label(t0, i, c) || av[k as int] == AxiomV::ClassAssertion(c, i)) by {
                    if asserted_label(t1, i, c) {
                        let q = choose|q: int| 0 <= q < t1.len() && t1[q] == AxiomV::ClassAssertion(c, i);
                        if q < k { assert(t0[q] == t1[q]); }
                    }
                    if asserted_label(t0, i, c) {
                        let q = choose|q: int| 0 <= q < t0.len() && t0[q] == AxiomV::ClassAssertion(c, i);
                        assert(t1[q] == t0[q]);
                    }
                    if av[k as int] == AxiomV::ClassAssertion(c, i) {
                        assert(t1[k as int] == av[k as int]);
                    }
                }
                assert forall|i: Seq<char>, p: PropertyV, j: Seq<char>| asserted_link(t1, i, p, j) <==> (asserted_link(t0, i, p, j) || av[k as int] == AxiomV::ObjectPropertyAssertion(p, i, j)) by {
                    if asserted_link(t1, i, p, j) {
                        let q = choose|q: int| 0 <= q < t1.len() && t1[q] == AxiomV::ObjectPropertyAssertion(p, i, j);
                        if q < k { assert(t0[q] == t1[q]); }
                    }
                    if asserted_link(t0, i, p, j) {
                        let q = choose|q: int| 0 <= q < t0.len() && t0[q] == AxiomV::ObjectPropertyAssertion(p, i, j);
                        assert(t1[q] == t0[q]);
                    }
                    if av[k as int] == AxiomV::ObjectPropertyAssertion(p, i, j) {
                        assert(t1[k as int] == av[k as int]);
                    }
                }
                let step = av[k as int] is ObjectPropertyAssertion || (av[k as int] matches AxiomV::ClassAssertion(c, i) && g0.has_node(i) && !g0.labeled(i, c));
                assert(assertions_change(t1, g0) == (assertions_change(t0, g0) || step)) by {
                    if assertions_change(t1, g0) {
                        let q = choose|q: int| 0 <= q < t1.len() && (t1[q] is ObjectPropertyAssertion || (t1[q] matches AxiomV::ClassAssertion(c, i)
                            && g0.has_node(i) && !g0.labeled(i, c)));
                        if q < k { assert(t0[q] == t1[q]); } else { assert(t1[q] == av[k as int]); }
                    }
                    if assertions_change(t0, g0) {
                        let q = choose|q: int| 0 <= q < t0.len() && (t0[q] is ObjectPropertyAssertion || (t0[q] matches AxiomV::ClassAssertion(c, i)
                            && g0.has_node(i) && !g0.labeled(i, c)));
                        assert(t1[q] == t0[q]);
                    }
                    if step {
                        assert(t1[k as int] == av[k as int]);
                    }
                }
                assert forall|i: Seq<char>, c: ClassV| self.graph.labeled(i, c) <==> (g0.labeled(i, c)
                    || (g0.has_node(i) && asserted_label(t1, i, c))) by {
                    assert(gk.labeled(i, c) <==> (g0.labeled(i, c) || (g0.has_node(i) && asserted_label(t0, i, c))));
                    assert(gk.has_node(i) == g0.has_node(i));
                }
                assert forall|i: Seq<char>, p: PropertyV, j: Seq<char>| self.graph.linked(i, p, j) <==> (g0.linked(i, p, j)
                    || (g0.has_node(i) && asserted_link(t1, i, p, j))) by {
                    assert(gk.linked(i, p, j) <==> (g0.linked(i, p, j) || (g0.has_node(i) && asserted_link(t0, i, p, j))));
                    assert(gk.has_node(i) == g0.has_node(i));
                }
                match av[k as int] {
                    AxiomV::ClassAssertion(c, i) => {
                        if g0.has_node(i) && !g0.labeled(i, c) && !assertions_change(t0, g0) {
                            assert(!asserted_label(t0, i, c)) by {
                                if asserted_label(t0, i, c) {
                                    let q = choose|q: int| 0 <= q < t0.len() && t0[q] == AxiomV::ClassAssertion(c, i);
                                    assert(t0[q] matches AxiomV::ClassAssertion(c2, i2) && g0.has_node(i2) && !g0.labeled(i2, c2));
                                }
                            }
                            assert(!gk.labeled(i, c));
                        }
                    },
                    _ => {},
                }
            }
            k += 1;
        }
        proof {
            assert(av.take(av.len() as int) =~= av);
            assert(ontology.view_of().axioms == av);
            assert forall|i: Seq<char>, c: ClassV| self.graph.labeled(i, c) <==> (g0.labeled(i, c) || (g0.has_node(i) && asserted_label(av, i, c))) by {
                assert(av.take(k as int) == av);
            }
            assert forall|i: Seq<char>, p: PropertyV, j: Seq<char>| self.graph.linked(i, p, j) <==> (g0.linked(i, p, j) || (g0.has_node(i) && asserted_link(av, i, p, j))) by {
                assert(av.take(k as int) == av);
            }
        }
        Ok(changed)
    }

    /// Conjunction rule: OWL Lite has no explicit intersections, so nothing
    /// is added.
    fn apply_conjunction_rule(&mut self) -> (r: Result<bool, OwlError>)
        ensures
            *final(self) == *old(self),
            r == Ok::<bool, OwlError>(false),
    {
        Ok(false)
    }

    /// Existential rule: OWL Lite has no existential restrictions in this
    /// model, so nothing is added.
    fn apply_existential_rule(&mut self, _ontology: &Ontology) -> (r: Result<bool, OwlError>)
        ensures
            *final(self) == *old(self),
            r == Ok::<bool, OwlError>(false),
    {
        Ok(false)
    }

    /// Universal rule: OWL Lite has no universal restrictions in this
    /// model, so nothing is added.
    fn apply_universal_rule(&mut self, _ontology: &Ontology) -> (r: Result<bool, OwlError>)
        ensures
            *final(self) == *old(self),
            r == Ok::<bool, OwlError>(false),
    {
        Ok(false)
    }

    /// Whether no node of the completion graph is labelled owl:Nothing.
    fn check_contradictions(&self) -> (r: Result<bool, OwlError>)
        requires
            self.wf(),
        ensures
            r == Ok::<bool, OwlError>(!self.completion().has_clash()),
    {
        self.graph.check_contradictions()
    }

    /// The subsumption hierarchy: each class that is the subclass of some
    /// SubClassOf statement, with every class it reaches through them.
    pub fn compute_subsumption_hierarchy(&mut self, ontology: &Ontology) -> (r: Result<Vec<(Class, Vec<Class>)>, OwlError>)
        ensures
            *final(self) == *old(self),
            r is Ok,
            hier_wf(r->Ok_0@),
            forall|a: ClassV| has_key(r->Ok_0@, a) <==> exists|b: ClassV| subclass_pairs(ontology.view_of().axioms).contains((a, b)),
            forall|a: ClassV, b: ClassV| in_hier(r->Ok_0@, a, b) <==> reaches(subclass_pairs(ontology.view_of().axioms), a, b),
    {
        let axs = &ontology.axioms;
        let ghost av = axiom_views(axs@);
        let mut map: Vec<(Class, Vec<Class>)> = Vec::new();
        let mut k: usize = 0;
        while k < axs.len()
            invariant
                k <= axs@.len(),
                av == axiom_views(axs@),
                hier_wf(map@),
                forall|a: ClassV, b: ClassV| in_hier(map@, a, b) <==> subclass_pairs(av.take(k as int)).contains((a, b)),
                forall|a: ClassV| has_key(map@, a) <==> exists|b: ClassV| subclass_pairs(av.take(k as int)).contains((a, b)),
            decreases axs.len() - k,
        {
            let ghost t0 = av.take(k as int);
            let ghost t1 = av.take(k + 1);
            proof {
                assert(t1 =~= t0.push(av[k as int]));
                assert(t1.drop_last() =~= t0);
                assert(av[k as int] == axs@[k as int].view_of());
            }
            match &axs[k] {
                Axiom::SubClassOf(sub, sup) => {
                    hier_add(&mut map, sub.clone(), sup.clone());
                    proof {
                        let e = subclass_pairs(t1);
                        assert(e == subclass_pairs(t0).push((sub.view_of(), sup.view_of())));
                        assert forall|a: ClassV, b: ClassV| e.contains((a, b)) <==> (subclass_pairs(t0).contains((a, b)) || (a == sub.view_of() && b == sup.view_of())) by {
                            if e.contains((a, b)) {
                                let i = choose|i: int| 0 <= i < e.len() && e[i] == (a, b);
                                if i < subclass_pairs(t0).len() {
                                    assert(subclass_pairs(t0)[i] == (a, b));
                                }
                            }
                            if subclass_pairs(t0).contains((a, b)) {
                                let i = choose|i: int| 0 <= i < subclass_pairs(t0).len() && subclass_pairs(t0)[i] == (a, b);
                                assert(e[i] == (a, b));
                            }
                            if a == sub.view_of() && b == sup.view_of() {
                                assert(e[subclass_pairs(t0).len() as int] == (a, b));
                            }
                        }
                        assert forall|a: ClassV| has_key(map@, a) <==> exists|b: ClassV| e.contains((a, b)) by {
                            if a == sub.view_of() {
                                assert(e.contains((a, sup.view_of())));
                            }
                            if exists|b: ClassV| subclass_pairs(t0).contains((a, b)) {
                                let b = choose|b: ClassV| subclass_pairs(t0).contains((a, b));
                                assert(e.contains((a, b)));
                            }
                        }
                    }
                },
                _ => {
                    proof {
                        assert(subclass_pairs(t1) == subclass_pairs(t0));
                    }
                },
            }
            k += 1;
        }
        proof {
            assert(av.take(av.len() as int) =~= av);
        }
        let ghost direct = map@;
        self.compute_transitive_closure(&mut map);
        proof {
            let pairs = subclass_pairs(av);
            assert(ontology.view_of().axioms == av);
            assert forall|a: ClassV, b: ClassV| hier_edges(direct).contains((a, b)) <==> pairs.contains((a, b)) by {
                lemma_hier_edges_contains(direct, a, b);
            }
            crate::closure::lemma_same_edges_same_reach(hier_edges(direct), pairs);
            assert forall|a: ClassV| has_key(map@, a) <==> exists|b: ClassV| pairs.contains((a, b)) by {
                assert(has_key(direct, a) <==> exists|b: ClassV| subclass_pairs(av.take(av.len() as int)).contains((a, b)));
                assert(av.take(av.len() as int) == av);
                assert(has_key(map@, a) == has_key(direct, a));
            }
            assert forall|a: ClassV, b: ClassV| in_hier(map@, a, b) <==> reaches(pairs, a, b) by {
                if reaches(pairs, a, b) {
                    crate::closure::lemma_reaches_has_edge(pairs, a, b);
                    let x = choose|x: ClassV| pairs.contains((a, x));
                    assert(has_key(direct, a));
                }
            }
        }
        Ok(map)
    }

    /// Close a subsumption map transitively.
    fn compute_transitive_closure(&self, subsumption_map: &mut Vec<(Class, Vec<Class>)>)
        requires
            hier_wf(old(subsumption_map)@),
        ensures
            hier_wf(final(subsumption_map)@),
            forall|a: ClassV| has_key(final(subsumption_map)@, a) <==> has_key(old(subsumption_map)@, a),
            forall|a: ClassV, b: ClassV| in_hier(final(subsumption_map)@, a, b) <==> (has_key(old(subsumption_map)@, a) && reaches(hier_edges(old(subsumption_map)@), a, b)),
    {
        let closed = hier_close(subsumption_map);
        *subsumption_map = closed;
    }
}

pub proof fn lemma_take_push<V>(s: Seq<V>, k: int)
    requires
        0 <= k < s.len(),
    ensures
        forall|x: V| s.take(k + 1).contains(x) <==> (s.take(k).contains(x) || x == s[k]),
{
    assert(s.take(k + 1) =~= s.take(k).push(s[k]));
    assert forall|x: V| s.take(k + 1).contains(x) <==> (s.take(k).contains(x) || x == s[k]) by {
        if s.take(k + 1).contains(x) {
            let i = choose|i: int| 0 <= i < k + 1 && #[trigger] s.take(k + 1)[i] == x;
            if i < k {
                assert(s.take(k)[i] == x);
            }
        }
        if s.take(k).contains(x) {
            let i = choose|i: int| 0 <= i < k && #[trigger] s.take(k)[i] == x;
            assert(s.take(k + 1)[i] == x);
        }
        if x == s[k] {
            assert(s.take(k + 1)[k] == x);
        }
    }
}

/// Every individual of a class assertion of `o` is listed in `o`.
pub open spec fn assertions_listed(o: OntologyV) -> bool {
    forall|i: Seq<char>, c: ClassV| #[trigger] asserted_label(o.axioms, i, c) ==> o.individuals.contains(i)
}

/// Adding statements one by one keeps every asserted individual listed.
pub proof fn law_add_axiom_lists_asserted(o: OntologyV, a: AxiomV)
    requires
        assertions_listed(o),
    ensures
        assertions_listed(super::model::add_axiom_spec(o, a)),
{
    let o2 = super::model::add_axiom_spec(o, a);
    crate::nodeset::lemma_seq_extend(o.individuals, super::model::axiom_individuals(a));
    assert forall|i: Seq<char>, c: ClassV| #[trigger] asserted_label(o2.axioms, i, c) implies o2.individuals.contains(i) by {
        let k = choose|k: int| 0 <= k < o2.axioms.len() && o2.axioms[k] == AxiomV::ClassAssertion(c, i);
        if k < o.axioms.len() {
            assert(o.axioms[k] == o2.axioms[k]);
            assert(asserted_label(o.axioms, i, c));
            assert(o.individuals.contains(i));
        } else {
            assert(a == AxiomV::ClassAssertion(c, i));
            assert(super::model::axiom_individuals(a)[0] == i);
            assert(super::model::axiom_individuals(a).contains(i));
        }
        assert(o2.individuals == crate::nodeset::seq_extend(o.individuals, super::model::axiom_individuals(a)));
    }
}

/// With every asserted individual listed, the consistency verdict is
/// whether no individual is stated to be in owl:Nothing.
pub proof fn law_lite_verdict(o: OntologyV)
    requires
        assertions_listed(o),
    ensures
        (exists|i: Seq<char>| o.individuals.contains(i) && #[trigger] asserted_label(o.axioms, i, ClassV::Nothing))
            <==> (exists|i: Seq<char>| #[trigger] asserted_label(o.axioms, i, ClassV::Nothing)),
{
}

/// The ontology after the statements of `axs` were added to `o` in order,
/// as `add_axiom` adds them.
pub open spec fn added_all(o: OntologyV, axs: Seq<AxiomV>) -> OntologyV
    decreases axs.len(),
{
    if axs.len() == 0 {
        o
    } else {
        super::model::add_axiom_spec(added_all(o, axs.drop_last()), axs.last())
    }
}

/// An ontology that `Ontology::new` gives.
pub open spec fn empty_ontology() -> OntologyV {
    OntologyV { iri: None, axioms: Seq::empty(), classes: Seq::empty(), properties: Seq::empty(), individuals: Seq::empty() }
}

proof fn lemma_added_all(o: OntologyV, axs: Seq<AxiomV>)
    requires
        assertions_listed(o),
    ensures
        assertions_listed(added_all(o, axs)),
        added_all(o, axs).axioms == o.axioms + axs,
    decreases axs.len(),
{
    if axs.len() == 0 {
        assert(o.axioms + axs =~= o.axioms);
    } else {
        lemma_added_all(o, axs.drop_last());
        law_add_axiom_lists_asserted(added_all(o, axs.drop_last()), axs.last());
        assert((o.axioms + axs.drop_last()).push(axs.last()) =~= o.axioms + axs);
    }
}

/// For an ontology built by `Ontology::new` and `add_axiom` calls, the
/// consistency verdict is whether no statement puts an individual in
/// owl:Nothing: the statements are those added, in order, and every
/// individual so stated is listed.
pub proof fn law_built_lite_verdict(axs: Seq<AxiomV>)
    ensures
        added_all(empty_ontology(), axs).axioms == axs,
        assertions_listed(added_all(empty_ontology(), axs)),
        (exists|i: Seq<char>| added_all(empty_ontology(), axs).individuals.contains(i) && #[trigger] asserted_label(axs, i, ClassV::Nothing))
            <==> (exists|i: Seq<char>| #[trigger] asserted_label(axs, i, ClassV::Nothing)),
{
    let o = empty_ontology();
    assert forall|i: Seq<char>, c: ClassV| #[trigger] asserted_label(o.axioms, i, c) implies o.individuals.contains(i) by {}
    lemma_added_all(o, axs);
    assert(o.axioms + axs =~= axs);
    law_lite_verdict(added_all(o, axs));
}

/// The verdict read from a completion graph built as `is_consistent` builds
/// it (a node for each listed individual, labelled by exactly its class
/// assertions): with every asserted individual listed, the graph clashes
/// exactly when some statement puts an individual in owl:Nothing.
pub proof fn law_clash_is_nothing_asserted(g: CompletionGraph, o: OntologyV)
    requires
        assertions_listed(o),
        forall|i: Seq<char>| g.has_node(i) <==> o.individuals.contains(i),
        forall|i: Seq<char>, c: ClassV| g.labeled(i, c) <==> (g.has_node(i) && asserted_label(o.axioms, i, c)),
    ensures
        g.has_clash() <==> exists|i: Seq<char>| #[trigger] asserted_label(o.axioms, i, ClassV::Nothing),
{
    if exists|i: Seq<char>| #[trigger] asserted_label(o.axioms, i, ClassV::Nothing) {
        let i = choose|i: Seq<char>| #[trigger] asserted_label(o.axioms, i, ClassV::Nothing);
        assert(o.individuals.contains(i));
        assert(g.labeled(i, ClassV::Nothing));
    }
    if g.has_clash() {
        let i = choose|i: Seq<char>| g.labeled(i, ClassV::Nothing);
        assert(asserted_label(o.axioms, i, ClassV::Nothing));
    }
}

} // verus!
