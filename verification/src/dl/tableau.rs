//! Completion graph and tableau reasoner for OWL DL: labels of individuals,
//! property edges, same and different individuals, and the expansion rules
//! that saturate them.

use vstd::prelude::*;
use crate::closure::{GraphNode, node_views, edge_views, distinct, contains_node, is_path, reaches, lemma_edge_reaches,
    lemma_reaches_transitive, lemma_reaches_mono};
use crate::hierarchy::{in_hier, has_key, hier_wf, hier_find, hier_get, hier_add, hier_has, hier_touch, hier_copy, hier_flatten};
use crate::nodeset::{insert_node, lemma_seq_insert, copy_nodes};
use crate::lite::model::{Class, ClassV, Property, PropertyV, Individual, OwlIri, Axiom as LiteAxiom, AxiomV as LiteAxiomV};
use crate::text::{join, decimal, usize_to_u64};
use super::model::{OwlDlOntology, ClassExpression, ClassExpressionV, PropertyExpression, PropertyExpressionV, Axiom, DlAxiomV,
    ce_view, ce_seq_view, pe_view, lemma_ce_seq_view, dl_axiom_views, lite_class_ce, lite_property_pe};
use super::OwlDlError;

verus! {

/// A property edge as a value.
pub struct DlLinkV {
    pub property: PropertyExpressionV,
    pub target: Seq<char>,
}

/// A property edge to an individual.
#[derive(Debug)]
pub struct DlLink {
    pub property: PropertyExpression,
    pub target: Individual,
}

impl GraphNode for DlLink {
    type V = DlLinkV;

    open spec fn node_view(&self) -> DlLinkV {
        DlLinkV { property: pe_view(self.property), target: self.target.node_view() }
    }

    fn same_node(&self, other: &Self) -> (r: bool) {
        self.property.same(&other.property) && self.target.same_node(&other.target)
    }

    fn copy_node(&self) -> (r: Self) {
        DlLink { property: self.property.copy(), target: self.target.copy_node() }
    }
}

/// Completion graph of OWL DL: labels, property edges, classes of same
/// individuals and pairs of different individuals.
#[derive(Debug)]
pub struct DlCompletionGraph {
    individual_labels: Vec<(Individual, Vec<ClassExpression>)>,
    property_assertions: Vec<(Individual, Vec<DlLink>)>,
    same_individuals: Vec<Vec<Individual>>,
    different_individuals: Vec<(Individual, Individual)>,
}

/// No individual is in two of the classes, and none twice in one.
pub open spec fn classes_wf(cs: Seq<Vec<Individual>>) -> bool {
    &&& forall|k: int| 0 <= k < cs.len() ==> distinct(node_views(#[trigger] cs[k]@))
    &&& forall|k: int, l: int, x: Seq<char>| 0 <= k < l < cs.len() ==>
        !(#[trigger] node_views(cs[k]@).contains(x) && #[trigger] node_views(cs[l]@).contains(x))
}

/// Every pair comes with its reverse.
pub open spec fn symmetric_pairs(d: Seq<(Seq<char>, Seq<char>)>) -> bool {
    forall|a: Seq<char>, b: Seq<char>| #[trigger] d.contains((a, b)) ==> d.contains((b, a))
}

/// Some class holds both `a` and `b`.
pub open spec fn in_same_class(cs: Seq<Vec<Individual>>, a: Seq<char>, b: Seq<char>) -> bool {
    exists|k: int| 0 <= k < cs.len() && #[trigger] node_views(cs[k]@).contains(a) && node_views(cs[k]@).contains(b)
}

impl DlCompletionGraph {
    /// Individual `i` has labels.
    pub closed spec fn has_node(&self, i: Seq<char>) -> bool {
        has_key(self.individual_labels@, i)
    }

    /// Individual `i` is labelled with `c`.
    pub closed spec fn labeled(&self, i: Seq<char>, c: ClassExpressionV) -> bool {
        in_hier(self.individual_labels@, i, c)
    }

    /// Individual `i` has a `p` edge to `j`.
    pub closed spec fn linked(&self, i: Seq<char>, p: PropertyExpressionV, j: Seq<char>) -> bool {
        in_hier(self.property_assertions@, i, DlLinkV { property: p, target: j })
    }

    /// `a` and `b` are in one class of same individuals.
    pub closed spec fn same(&self, a: Seq<char>, b: Seq<char>) -> bool {
        in_same_class(self.same_individuals@, a, b)
    }

    /// `a` and `b` are stated to be different.
    pub closed spec fn different(&self, a: Seq<char>, b: Seq<char>) -> bool {
        edge_views(self.different_individuals@).contains((a, b))
    }

    pub closed spec fn wf(&self) -> bool {
        &&& hier_wf(self.individual_labels@)
        &&& hier_wf(self.property_assertions@)
        &&& classes_wf(self.same_individuals@)
        &&& symmetric_pairs(edge_views(self.different_individuals@))
    }

    /// Every relation of `g0` holds in `self` too.
    pub open spec fn extends(&self, g0: DlCompletionGraph) -> bool {
        &&& forall|i: Seq<char>| g0.has_node(i) ==> self.has_node(i)
        &&& forall|i: Seq<char>, c: ClassExpressionV| g0.labeled(i, c) ==> self.labeled(i, c)
        &&& forall|i: Seq<char>, p: PropertyExpressionV, j: Seq<char>| g0.linked(i, p, j) ==> self.linked(i, p, j)
        &&& forall|a: Seq<char>, b: Seq<char>| g0.same(a, b) ==> self.same(a, b)
        &&& forall|a: Seq<char>, b: Seq<char>| g0.different(a, b) ==> self.different(a, b)
    }

    /// `self` and `g0` hold the same relations.
    pub open spec fn same_relations(&self, g0: DlCompletionGraph) -> bool {
        &&& forall|i: Seq<char>| g0.has_node(i) == self.has_node(i)
        &&& forall|i: Seq<char>, c: ClassExpressionV| g0.labeled(i, c) == self.labeled(i, c)
        &&& forall|i: Seq<char>, p: PropertyExpressionV, j: Seq<char>| g0.linked(i, p, j) == self.linked(i, p, j)
        &&& forall|a: Seq<char>, b: Seq<char>| g0.same(a, b) == self.same(a, b)
        &&& forall|a: Seq<char>, b: Seq<char>| g0.different(a, b) == self.different(a, b)
    }

    /// An individual is labelled both owl:Thing and owl:Nothing, or both a
    /// class and its complement, or two individuals are the same and stated
    /// to be different.
    pub open spec fn has_clash(&self) -> bool {
        ||| exists|i: Seq<char>| self.labeled(i, ClassExpressionV::Thing) && self.labeled(i, ClassExpressionV::Nothing)
        ||| exists|i: Seq<char>, c: ClassExpressionV| #[trigger] self.labeled(i, ClassExpressionV::ComplementOf(Box::new(c))) && self.labeled(i, c)
        ||| exists|a: Seq<char>, b: Seq<char>| a != b && self.same(a, b) && self.different(a, b)
    }

    /// An empty graph.
    pub fn new() -> (r: Self)
        ensures
            r.wf(),
            forall|i: Seq<char>| !r.has_node(i),
            forall|i: Seq<char>, c: ClassExpressionV| !r.labeled(i, c),
            forall|i: Seq<char>, p: PropertyExpressionV, j: Seq<char>| !r.linked(i, p, j),
            forall|a: Seq<char>, b: Seq<char>| !r.same(a, b),
            forall|a: Seq<char>, b: Seq<char>| !r.different(a, b),
    {
        let r = DlCompletionGraph { individual_labels: Vec::new(), property_assertions: Vec::new(), same_individuals: Vec::new(), different_individuals: Vec::new() };
        proof {
            assert(edge_views(r.different_individuals@) =~= Seq::<(Seq<char>, Seq<char>)>::empty());
        }
        r
    }

    /// Give every individual of the ontology a node, keeping the labels of
    /// those that had one.
    pub fn initialize(&mut self, ontology: &OwlDlOntology)
        requires
            old(self).wf(),
        ensures
            final(self).wf(),
            forall|i: Seq<char>| final(self).has_node(i) <==> (old(self).has_node(i) || ontology.view_of().individuals.contains(i)),
            forall|i: Seq<char>, c: ClassExpressionV| final(self).labeled(i, c) == old(self).labeled(i, c),
            forall|i: Seq<char>, p: PropertyExpressionV, j: Seq<char>| final(self).linked(i, p, j) == old(self).linked(i, p, j),
            forall|a: Seq<char>, b: Seq<char>| final(self).same(a, b) == old(self).same(a, b),
            forall|a: Seq<char>, b: Seq<char>| final(self).different(a, b) == old(self).different(a, b),
    {
        let inds = &ontology.individuals;
        let ghost iv = node_views(inds@);
        let mut k: usize = 0;
        while k < inds.len()
            invariant
                k <= inds@.len(),
                iv == node_views(inds@),
                self.wf(),
                self.property_assertions == old(self).property_assertions,
                self.same_individuals == old(self).same_individuals,
                self.different_individuals == old(self).different_individuals,
                forall|i: Seq<char>| self.has_node(i) <==> (old(self).has_node(i) || iv.take(k as int).contains(i)),
                forall|i: Seq<char>, c: ClassExpressionV| self.labeled(i, c) == old(self).labeled(i, c),
            decreases inds.len() - k,
        {
            proof {
                crate::lite::tableau::lemma_take_push(iv, k as int);
                assert(iv[k as int] == inds@[k as int].node_view());
            }
            let ghost g0 = *self;
            hier_touch(&mut self.individual_labels, inds[k].copy_node());
            proof {
                assert forall|i: Seq<char>| self.has_node(i) <==> (old(self).has_node(i) || iv.take(k + 1).contains(i)) by {
                    assert(g0.has_node(i) <==> (old(self).has_node(i) || iv.take(k as int).contains(i)));
                }
                assert forall|i: Seq<char>, c: ClassExpressionV| self.labeled(i, c) == old(self).labeled(i, c) by {
                    assert(g0.labeled(i, c) == old(self).labeled(i, c));
                }
            }
            k += 1;
        }
        proof {
            assert(iv.take(iv.len() as int) =~= iv);
        }
    }

    /// Label an individual, giving it a node if it has none; true when the
    /// label is new.
    pub fn add_label(&mut self, individual: &Individual, class_expr: ClassExpression) -> (r: bool)
        requires
            old(self).wf(),
        ensures
            final(self).wf(),
            forall|i: Seq<char>| final(self).has_node(i) <==> (old(self).has_node(i) || i == individual.node_view()),
            forall|i: Seq<char>, c: ClassExpressionV| final(self).labeled(i, c) <==> (old(self).labeled(i, c)
                || (i == individual.node_view() && c == ce_view(class_expr))),
            forall|i: Seq<char>, p: PropertyExpressionV, j: Seq<char>| final(self).linked(i, p, j) == old(self).linked(i, p, j),
            forall|a: Seq<char>, b: Seq<char>| final(self).same(a, b) == old(self).same(a, b),
            forall|a: Seq<char>, b: Seq<char>| final(self).different(a, b) == old(self).different(a, b),
            r == !old(self).labeled(individual.node_view(), ce_view(class_expr)),
    {
        let had = hier_has(&self.individual_labels, individual, &class_expr);
        hier_add(&mut self.individual_labels, individual.copy_node(), class_expr);
        !had
    }

    /// Whether an individual is labelled with a class expression.
    pub fn has_label(&self, individual: &Individual, class_expr: &ClassExpression) -> (r: bool)
        requires
            self.wf(),
        ensures
            r == self.labeled(individual.node_view(), ce_view(*class_expr)),
    {
        hier_has(&self.individual_labels, individual, class_expr)
    }

    /// Add a property edge.
    pub fn add_property_assertion(&mut self, from: &Individual, property: PropertyExpression, to: &Individual)
        requires
            old(self).wf(),
        ensures
            final(self).wf(),
            forall|i: Seq<char>| final(self).has_node(i) == old(self).has_node(i),
            forall|i: Seq<char>, c: ClassExpressionV| final(self).labeled(i, c) == old(self).labeled(i, c),
            forall|i: Seq<char>, p: PropertyExpressionV, j: Seq<char>| final(self).linked(i, p, j) <==> (old(self).linked(i, p, j)
                || (i == from.node_view() && p == pe_view(property) && j == to.node_view())),
            forall|a: Seq<char>, b: Seq<char>| final(self).same(a, b) == old(self).same(a, b),
            forall|a: Seq<char>, b: Seq<char>| final(self).different(a, b) == old(self).different(a, b),
    {
        let link = DlLink { property, target: to.copy_node() };
        hier_add(&mut self.property_assertions, from.copy_node(), link);
    }

    /// The individuals an individual reaches by one edge of a property,
    /// each once.
    pub fn get_property_successors(&self, individual: &Individual, property: &PropertyExpression) -> (r: Vec<Individual>)
        requires
            self.wf(),
        ensures
            distinct(node_views(r@)),
            forall|j: Seq<char>| node_views(r@).contains(j) <==> self.linked(individual.node_view(), pe_view(*property), j),
    {
        let mut out: Vec<Individual> = Vec::new();
        proof {
            assert(node_views(out@) =~= Seq::<Seq<char>>::empty());
        }
        let ghost pv = pe_view(*property);
        match hier_get(&self.property_assertions, individual) {
            Some(links) => {
                let mut k: usize = 0;
                while k < links.len()
                    invariant
                        k <= links@.len(),
                        pv == pe_view(*property),
                        distinct(node_views(out@)),
                        forall|j: Seq<char>| #[trigger] node_views(out@).contains(j) <==> exists|q: int| 0 <= q < k
                            && #[trigger] links@[q].target.node_view() == j && pe_view(links@[q].property) == pv,
                    decreases links.len() - k,
                {
                    let ghost before = node_views(out@);
                    let ghost tk = links@[k as int].target.node_view();
                    let m = links[k].property.same(property);
                    if m {
                        insert_node(&mut out, links[k].target.copy_node());
                    }
                    proof {
                        lemma_seq_insert(before, tk);
                        assert forall|j: Seq<char>| #[trigger] node_views(out@).contains(j) <==> exists|q: int| 0 <= q < k + 1
                            && #[trigger] links@[q].target.node_view() == j && pe_view(links@[q].property) == pv by {
                            if exists|q: int| 0 <= q < k + 1 && #[trigger] links@[q].target.node_view() == j && pe_view(links@[q].property) == pv {
                                let q = choose|q: int| 0 <= q < k + 1 && #[trigger] links@[q].target.node_view() == j && pe_view(links@[q].property) == pv;
                                if q < k {
                                    assert(before.contains(j));
                                } else {
                                    assert(m);
                                }
                            }
                            if node_views(out@).contains(j) {
                                if before.contains(j) {
                                    let q = choose|q: int| 0 <= q < k && #[trigger] links@[q].target.node_view() == j && pe_view(links@[q].property) == pv;
                                    assert(0 <= q < k + 1 && links@[q].target.node_view() == j && pe_view(links@[q].property) == pv);
                                } else {
                                    assert(m && j == tk);
                                    assert(links@[k as int].target.node_view() == j && pe_view(links@[k as int].property) == pv);
                                }
                            }
                        }
                    }
                    k += 1;
                }
                proof {
                    assert forall|j: Seq<char>| node_views(out@).contains(j) <==> self.linked(individual.node_view(), pv, j) by {
                        let lv = DlLinkV { property: pv, target: j };
                        if node_views(out@).contains(j) {
                            let q = choose|q: int| 0 <= q < links@.len() && #[trigger] links@[q].target.node_view() == j && pe_view(links@[q].property) == pv;
                            assert(node_views(links@)[q] == lv);
                            assert(node_views(links@).contains(lv));
                        }
                        if self.linked(individual.node_view(), pv, j) {
                            assert(node_views(links@).contains(lv));
                            let q = choose|q: int| 0 <= q < node_views(links@).len() && node_views(links@)[q] == lv;
                            assert(links@[q].target.node_view() == j && pe_view(links@[q].property) == pv);
                        }
                    }
                }
            },
            None => {},
        }
        out
    }

    /// Make two individuals the same: their classes are merged, and an
    /// individual in no class counts as a class of its own.
    pub fn add_same_individual(&mut self, i1: Individual, i2: Individual)
        requires
            old(self).wf(),
        ensures
            final(self).wf(),
            forall|i: Seq<char>| final(self).has_node(i) == old(self).has_node(i),
            forall|i: Seq<char>, c: ClassExpressionV| final(self).labeled(i, c) == old(self).labeled(i, c),
            forall|i: Seq<char>, p: PropertyExpressionV, j: Seq<char>| final(self).linked(i, p, j) == old(self).linked(i, p, j),
            forall|a: Seq<char>, b: Seq<char>| final(self).different(a, b) == old(self).different(a, b),
            same_added(*old(self), *final(self), i1.node_view(), i2.node_view()),
    {
        let ghost v1 = i1.node_view();
        let ghost v2 = i2.node_view();
        let ghost cs0 = self.same_individuals@;
        let idx1 = find_class(&self.same_individuals, &i1);
        let idx2 = find_class(&self.same_individuals, &i2);
        match (idx1, idx2) {
            (Some(a), Some(b)) => {
                if a != b {
                    let removed = self.same_individuals.remove(b);
                    let a2 = if b < a { a - 1 } else { a };
                    let mut cls = self.same_individuals.remove(a2);
                    let ghost c1 = cls@;
                    let mut k: usize = 0;
                    while k < removed.len()
                        invariant
                            k <= removed@.len(),
                            cls@.len() == c1.len() + k,
                            forall|q: int| 0 <= q < c1.len() ==> cls@[q] == c1[q],
                            forall|q: int| 0 <= q < k ==> (#[trigger] cls@[c1.len() + q]).node_view() == removed@[q].node_view(),
                        decreases removed.len() - k,
                    {
                        cls.push(removed[k].copy_node());
                        k += 1;
                    }
                    self.same_individuals.insert(a2, cls);
                    proof {
                        lemma_merge(cs0, a as int, b as int, a2 as int, c1, removed@, cls@, self.same_individuals@, v1, v2);
                    }
                } else {
                    proof {
                        lemma_same_class_merge(cs0, a as int, v1, v2);
                    }
                }
            },
            (Some(a), None) => {
                let mut cls = self.same_individuals.remove(a);
                let ghost c1 = cls@;
                cls.push(i2);
                self.same_individuals.insert(a, cls);
                proof {
                    lemma_add_to_class(cs0, a as int, c1, cls@, self.same_individuals@, v2, v1);
                }
            },
            (None, Some(b)) => {
                let mut cls = self.same_individuals.remove(b);
                let ghost c1 = cls@;
                cls.push(i1);
                self.same_individuals.insert(b, cls);
                proof {
                    lemma_add_to_class(cs0, b as int, c1, cls@, self.same_individuals@, v1, v2);
                }
            },
            (None, None) => {
                let mut cls: Vec<Individual> = Vec::new();
                let same = i1.same_node(&i2);
                cls.push(i1);
                if !same {
                    cls.push(i2);
                }
                proof {
                    let nc = node_views(cls@);
                    if same {
                        assert(nc =~= seq![v1]);
                    } else {
                        assert(nc =~= seq![v1, v2]);
                    }
                    assert forall|x: Seq<char>| nc.contains(x) <==> (x == v1 || x == v2) by {
                        if x == v1 { assert(nc[0] == x); }
                        if x == v2 && !same { assert(nc[1] == x); }
                    }
                }
                self.same_individuals.push(cls);
                proof {
                    assert(self.same_individuals@[cs0.len() as int] == cls);
                    lemma_new_class(cs0, self.same_individuals@, v1, v2);
                }
            },
        }
    }

    /// `x` is `a` or `b`, or in a class with one of them.
    pub open spec fn merged_with(&self, x: Seq<char>, a: Seq<char>, b: Seq<char>) -> bool {
        x == a || x == b || self.same(x, a) || self.same(x, b)
    }

    /// State that two individuals are different, in both orders.
    pub fn add_different_individuals(&mut self, i1: Individual, i2: Individual)
        requires
            old(self).wf(),
        ensures
            final(self).wf(),
            forall|i: Seq<char>| final(self).has_node(i) == old(self).has_node(i),
            forall|i: Seq<char>, c: ClassExpressionV| final(self).labeled(i, c) == old(self).labeled(i, c),
            forall|i: Seq<char>, p: PropertyExpressionV, j: Seq<char>| final(self).linked(i, p, j) == old(self).linked(i, p, j),
            forall|a: Seq<char>, b: Seq<char>| final(self).same(a, b) == old(self).same(a, b),
            forall|a: Seq<char>, b: Seq<char>| final(self).different(a, b) <==> (old(self).different(a, b)
                || (a == i1.node_view() && b == i2.node_view()) || (a == i2.node_view() && b == i1.node_view())),
    {
        let ghost d0 = edge_views(self.different_individuals@);
        let ghost p1 = (i1.node_view(), i2.node_view());
        let ghost p2 = (i2.node_view(), i1.node_view());
        let a1 = i1.copy_node();
        let b2 = i2.copy_node();
        self.different_individuals.push((a1, b2));
        self.different_individuals.push((i2, i1));
        proof {
            assert(edge_views(self.different_individuals@) =~= d0.push(p1).push(p2));
            assert forall|a: Seq<char>, b: Seq<char>| self.different(a, b) <==> (d0.contains((a, b)) || (a, b) == p1 || (a, b) == p2) by {
                let e = d0.push(p1).push(p2);
                if e.contains((a, b)) {
                    let q = choose|q: int| 0 <= q < e.len() && e[q] == (a, b);
                    if q < d0.len() { assert(d0[q] == (a, b)); }
                }
                if d0.contains((a, b)) {
                    let q = choose|q: int| 0 <= q < d0.len() && d0[q] == (a, b);
                    assert(e[q] == (a, b));
                }
                if (a, b) == p1 { assert(e[d0.len() as int] == (a, b)); }
                if (a, b) == p2 { assert(e[d0.len() as int + 1] == (a, b)); }
            }
            assert forall|a: Seq<char>, b: Seq<char>| #[trigger] edge_views(self.different_individuals@).contains((a, b))
                implies edge_views(self.different_individuals@).contains((b, a)) by {
                assert(self.different(a, b));
                if d0.contains((a, b)) {
                    assert(d0.contains((b, a)));
                }
                assert(self.different(b, a));
            }
        }
    }

    /// Whether two individuals are in one class of same individuals.
    pub fn are_same_individual(&self, i1: &Individual, i2: &Individual) -> (r: bool)
        ensures
            r == self.same(i1.node_view(), i2.node_view()),
    {
        let mut k: usize = 0;
        while k < self.same_individuals.len()
            invariant
                k <= self.same_individuals@.len(),
                forall|q: int| 0 <= q < k ==> !(#[trigger] node_views(self.same_individuals@[q]@).contains(i1.node_view())
                    && node_views(self.same_individuals@[q]@).contains(i2.node_view())),
            decreases self.same_individuals.len() - k,
        {
            if contains_node(&self.same_individuals[k], i1) && contains_node(&self.same_individuals[k], i2) {
                return true;
            }
            k += 1;
        }
        false
    }

    /// Whether two individuals are stated to be different, in this order.
    pub fn are_different_individuals(&self, i1: &Individual, i2: &Individual) -> (r: bool)
        ensures
            r == self.different(i1.node_view(), i2.node_view()),
    {
        let ghost d = edge_views(self.different_individuals@);
        let mut k: usize = 0;
        while k < self.different_individuals.len()
            invariant
                k <= self.different_individuals@.len(),
                d == edge_views(self.different_individuals@),
                forall|q: int| 0 <= q < k ==> d[q] != (i1.node_view(), i2.node_view()),
            decreases self.different_individuals.len() - k,
        {
            if self.different_individuals[k].0.same_node(i1) && self.different_individuals[k].1.same_node(i2) {
                proof {
                    assert(d[k as int] == (i1.node_view(), i2.node_view()));
                }
                return true;
            }
            k += 1;
        }
        false
    }
}

/// A copy of the classes of same individuals.
fn copy_classes(cs: &Vec<Vec<Individual>>) -> (r: Vec<Vec<Individual>>)
    ensures
        r@.len() == cs@.len(),
        forall|k: int| 0 <= k < cs@.len() ==> node_views(#[trigger] r@[k]@) == node_views(cs@[k]@),
{
    let mut r: Vec<Vec<Individual>> = Vec::new();
    let mut k: usize = 0;
    while k < cs.len()
        invariant
            k <= cs@.len(),
            r@.len() == k,
            forall|q: int| 0 <= q < k ==> node_views(#[trigger] r@[q]@) == node_views(cs@[q]@),
        decreases cs.len() - k,
    {
        r.push(copy_nodes(&cs[k]));
        k += 1;
    }
    r
}

/// A labelled individual has a node.
proof fn lemma_labeled_has_node(g: DlCompletionGraph, i: Seq<char>, c: ClassExpressionV)
    requires
        g.labeled(i, c),
    ensures
        g.has_node(i),
{
    let k = choose|k: int| 0 <= k < g.individual_labels@.len() && g.individual_labels@[k].0.node_view() == i
        && #[trigger] node_views(g.individual_labels@[k].1@).contains(c);
    assert(g.individual_labels@[k].0.node_view() == i);
}

/// Graphs with the same relations are saturated alike.
proof fn lemma_closed_transfer(g: DlCompletionGraph, h: DlCompletionGraph)
    requires
        h.same_relations(g),
    ensures
        inter_closed(g) ==> inter_closed(h),
        univ_closed(g) ==> univ_closed(h),
        ex_closed(g) ==> ex_closed(h),
        min_closed(g) ==> min_closed(h),
{
    if inter_closed(g) {
        assert forall|i: Seq<char>, c: ClassExpressionV| #[trigger] intersection_part(h, i, c) implies h.labeled(i, c) by {
            let cs = choose|cs: Seq<ClassExpressionV>| #[trigger] h.labeled(i, ClassExpressionV::IntersectionOf(cs)) && cs.contains(c);
            assert(g.labeled(i, ClassExpressionV::IntersectionOf(cs)));
            assert(intersection_part(g, i, c));
            assert(g.labeled(i, c));
        }
    }
    if univ_closed(g) {
        assert forall|i: Seq<char>, c: ClassExpressionV| #[trigger] universal_part(h, i, c) implies h.labeled(i, c) by {
            let (j, p) = choose|j: Seq<char>, p: PropertyExpressionV| #[trigger] h.labeled(j, ClassExpressionV::AllValuesFrom(p, Box::new(c))) && h.linked(j, p, i);
            assert(g.labeled(j, ClassExpressionV::AllValuesFrom(p, Box::new(c))) && g.linked(j, p, i));
            assert(universal_part(g, i, c));
            assert(g.labeled(i, c));
        }
    }
    if ex_closed(g) {
        assert forall|i: Seq<char>, x: ClassExpressionV| #[trigger] h.labeled(i, x) implies ex_entry_ok(h, i, x) by {
            assert(g.labeled(i, x));
            assert(ex_entry_ok(g, i, x));
            match x {
                ClassExpressionV::SomeValuesFrom(p, bc) => {
                    let j = choose|j: Seq<char>| #[trigger] g.linked(i, p, j);
                    assert(h.linked(i, p, j));
                    assert forall|j: Seq<char>| #[trigger] h.linked(i, p, j) implies h.labeled(j, *bc) by {
                        assert(g.linked(i, p, j));
                        assert(g.labeled(j, *bc));
                    }
                },
                _ => {},
            }
        }
    }
    if min_closed(g) {
        assert forall|i: Seq<char>, x: ClassExpressionV| #[trigger] h.labeled(i, x) implies min_entry_ok(h, i, x) by {
            assert(g.labeled(i, x));
            assert(min_entry_ok(g, i, x));
            match x {
                ClassExpressionV::MinCardinality(n, p, Some(bc)) => {
                    let sq = choose|sq: Seq<Seq<char>>| distinct(sq) && n as nat <= sq.len() && forall|j: Seq<char>| #[trigger] sq.contains(j) <==> g.linked(i, p, j);
                    assert forall|j: Seq<char>| #[trigger] sq.contains(j) <==> h.linked(i, p, j) by {
                        assert(sq.contains(j) <==> g.linked(i, p, j));
                    }
                },
                _ => {},
            }
        }
    }
}

/// Make each individual of a list the same as the next one; true when the
/// list has two or more.
/// Every individual in a pair of same individuals of `g` is in `m`.
pub open spec fn same_within(g: DlCompletionGraph, m: Set<Seq<char>>) -> bool {
    forall|a: Seq<char>, b: Seq<char>| #[trigger] g.same(a, b) ==> m.contains(a) && m.contains(b)
}

/// The individuals that some statement lists as the same.
pub open spec fn same_members(axs: Seq<DlAxiomV>) -> Set<Seq<char>> {
    Set::new(|x: Seq<char>| exists|q: int| 0 <= q < axs.len() && #[trigger] same_list(axs[q]).contains(x))
}

fn add_same_chain(g: &mut DlCompletionGraph, list: &Vec<Individual>, Ghost(m): Ghost<Set<Seq<char>>>) -> (r: bool)
    requires
        old(g).wf(),
    ensures
        final(g).wf(),
        same_within(*old(g), m) && (forall|k: int| 0 <= k < list@.len() ==> m.contains(#[trigger] node_views(list@)[k]))
            ==> same_within(*final(g), m),
        forall|i: Seq<char>| #[trigger] final(g).has_node(i) == old(g).has_node(i),
        forall|i: Seq<char>, c: ClassExpressionV| #[trigger] final(g).labeled(i, c) == old(g).labeled(i, c),
        forall|i: Seq<char>, p: PropertyExpressionV, j: Seq<char>| #[trigger] final(g).linked(i, p, j) == old(g).linked(i, p, j),
        forall|a: Seq<char>, b: Seq<char>| #[trigger] final(g).different(a, b) == old(g).different(a, b),
        forall|a: Seq<char>, b: Seq<char>| old(g).same(a, b) ==> #[trigger] final(g).same(a, b),
        forall|w: int| 0 <= w && w + 1 < list@.len() ==> final(g).same(#[trigger] node_views(list@)[w], node_views(list@)[w + 1]),
        r == (list@.len() >= 2),
{
    let ghost g0 = *g;
    let ghost nv = node_views(list@);
    let mut changed = false;
    let mut w: usize = 0;
    while w < list.len() && w + 1 < list.len()
        invariant
            nv == node_views(list@),
            g.wf(),
            forall|i: Seq<char>| #[trigger] g.has_node(i) == g0.has_node(i),
            forall|i: Seq<char>, c: ClassExpressionV| #[trigger] g.labeled(i, c) == g0.labeled(i, c),
            forall|i: Seq<char>, p: PropertyExpressionV, j: Seq<char>| #[trigger] g.linked(i, p, j) == g0.linked(i, p, j),
            forall|a: Seq<char>, b: Seq<char>| #[trigger] g.different(a, b) == g0.different(a, b),
            forall|a: Seq<char>, b: Seq<char>| g0.same(a, b) ==> #[trigger] g.same(a, b),
            forall|q: int| 0 <= q < w && q + 1 < list@.len() ==> g.same(#[trigger] nv[q], nv[q + 1]),
            changed == (w > 0),
            w == 0 || w < list@.len(),
            same_within(g0, m) && (forall|k: int| 0 <= k < list@.len() ==> m.contains(#[trigger] nv[k])) ==> same_within(*g, m),
        decreases list.len() - w,
    {
        let ghost gw = *g;
        g.add_same_individual(list[w].copy_node(), list[w + 1].copy_node());
        proof {
            if same_within(g0, m) && (forall|k: int| 0 <= k < list@.len() ==> m.contains(#[trigger] nv[k])) {
                assert(m.contains(nv[w as int]) && m.contains(nv[w + 1]));
                assert forall|a: Seq<char>, b: Seq<char>| #[trigger] g.same(a, b) implies m.contains(a) && m.contains(b) by {
                    if !gw.same(a, b) {
                        if gw.same(a, nv[w as int]) || gw.same(nv[w as int], a) {}
                        if gw.same(b, nv[w as int]) || gw.same(b, nv[w + 1]) {}
                    }
                }
            }
            assert(g.same(nv[w as int], nv[w + 1]));
            assert forall|q: int| 0 <= q < w + 1 && q + 1 < list@.len() implies g.same(#[trigger] nv[q], nv[q + 1]) by {
                if q < w {
                    assert(gw.same(nv[q], nv[q + 1]));
                }
            }
            assert forall|a: Seq<char>, b: Seq<char>| g0.same(a, b) implies #[trigger] g.same(a, b) by {
                assert(gw.same(a, b));
            }
        }
        changed = true;
        w += 1;
    }
    changed
}

/// State every two members of a list to be different, in both orders;
/// true when some pair was stated.
fn add_different_all(g: &mut DlCompletionGraph, list: &Vec<Individual>) -> (r: bool)
    requires
        old(g).wf(),
    ensures
        final(g).wf(),
        forall|i: Seq<char>| #[trigger] final(g).has_node(i) == old(g).has_node(i),
        forall|i: Seq<char>, c: ClassExpressionV| #[trigger] final(g).labeled(i, c) == old(g).labeled(i, c),
        forall|i: Seq<char>, p: PropertyExpressionV, j: Seq<char>| #[trigger] final(g).linked(i, p, j) == old(g).linked(i, p, j),
        forall|a: Seq<char>, b: Seq<char>| #[trigger] final(g).same(a, b) == old(g).same(a, b),
        forall|a: Seq<char>, b: Seq<char>| #[trigger] final(g).different(a, b) <==> (old(g).different(a, b)
            || (node_views(list@).contains(a) && node_views(list@).contains(b) && a != b)),
{
    let ghost g0 = *g;
    let ghost nv = node_views(list@);
    let mut changed = false;
    let mut i: usize = 0;
    while i < list.len()
        invariant
            i <= list@.len(),
            nv == node_views(list@),
            g.wf(),
            forall|x: Seq<char>| #[trigger] g.has_node(x) == g0.has_node(x),
            forall|x: Seq<char>, c: ClassExpressionV| #[trigger] g.labeled(x, c) == g0.labeled(x, c),
            forall|x: Seq<char>, p: PropertyExpressionV, y: Seq<char>| #[trigger] g.linked(x, p, y) == g0.linked(x, p, y),
            forall|a: Seq<char>, b: Seq<char>| #[trigger] g.same(a, b) == g0.same(a, b),
            forall|a: Seq<char>, b: Seq<char>| #[trigger] g.different(a, b) <==> (g0.different(a, b)
                || (nv.take(i as int).contains(a) && nv.contains(b) && a != b)
                || (nv.take(i as int).contains(b) && nv.contains(a) && a != b)),
        decreases list.len() - i,
    {
        proof {
            crate::lite::tableau::lemma_take_push(nv, i as int);
            assert(nv.take(0) =~= Seq::<Seq<char>>::empty());
        }
        let mut j: usize = 0;
        while j < list.len()
            invariant
                i < list@.len(),
                j <= list@.len(),
                nv == node_views(list@),
                g.wf(),
                forall|x: Seq<char>| #[trigger] g.has_node(x) == g0.has_node(x),
                forall|x: Seq<char>, c: ClassExpressionV| #[trigger] g.labeled(x, c) == g0.labeled(x, c),
                forall|x: Seq<char>, p: PropertyExpressionV, y: Seq<char>| #[trigger] g.linked(x, p, y) == g0.linked(x, p, y),
                forall|a: Seq<char>, b: Seq<char>| #[trigger] g.same(a, b) == g0.same(a, b),
                forall|a: Seq<char>, b: Seq<char>| #[trigger] g.different(a, b) <==> (g0.different(a, b)
                    || (nv.take(i as int).contains(a) && nv.contains(b) && a != b)
                    || (nv.take(i as int).contains(b) && nv.contains(a) && a != b)
                    || (a == nv[i as int] && nv.take(j as int).contains(b) && a != b)
                    || (b == nv[i as int] && nv.take(j as int).contains(a) && a != b)),
            decreases list.len() - j,
        {
            proof {
                crate::lite::tableau::lemma_take_push(nv, j as int);
            }
            let ghost gj = *g;
            if !list[i].same_node(&list[j]) {
                g.add_different_individuals(list[i].copy_node(), list[j].copy_node());
                changed = true;
            }
            proof {
                assert forall|a: Seq<char>, b: Seq<char>| #[trigger] g.different(a, b) <==> (g0.different(a, b)
                    || (nv.take(i as int).contains(a) && nv.contains(b) && a != b)
                    || (nv.take(i as int).contains(b) && nv.contains(a) && a != b)
                    || (a == nv[i as int] && nv.take(j + 1).contains(b) && a != b)
                    || (b == nv[i as int] && nv.take(j + 1).contains(a) && a != b)) by {
                    assert(gj.different(a, b) <==> (g0.different(a, b)
                        || (nv.take(i as int).contains(a) && nv.contains(b) && a != b)
                        || (nv.take(i as int).contains(b) && nv.contains(a) && a != b)
                        || (a == nv[i as int] && nv.take(j as int).contains(b) && a != b)
                        || (b == nv[i as int] && nv.take(j as int).contains(a) && a != b)));
                    assert(nv.contains(nv[j as int]));
                }
            }
            j += 1;
        }
        proof {
            assert(nv.take(list@.len() as int) =~= nv);
            assert forall|a: Seq<char>, b: Seq<char>| #[trigger] g.different(a, b) <==> (g0.different(a, b)
                || (nv.take(i + 1).contains(a) && nv.contains(b) && a != b)
                || (nv.take(i + 1).contains(b) && nv.contains(a) && a != b)) by {
            }
        }
        i += 1;
    }
    proof {
        assert(nv.take(list@.len() as int) =~= nv);
    }
    changed
}

/// One statement more in the prefixes of statements.
proof fn lemma_upto_step(av: Seq<DlAxiomV>, k: int)
    requires
        0 <= k < av.len(),
    ensures
        forall|i: Seq<char>, c: ClassExpressionV| #[trigger] label_upto(av, k + 1, i, c) <==> (label_upto(av, k, i, c) || axiom_label(av[k], i, c)),
        forall|i: Seq<char>, p: PropertyExpressionV, j: Seq<char>| #[trigger] link_upto(av, k + 1, i, p, j) <==> (link_upto(av, k, i, p, j) || axiom_link(av[k], i, p, j)),
        forall|a: Seq<char>, b: Seq<char>| #[trigger] same_upto(av, k + 1, a, b) <==> (same_upto(av, k, a, b) || axiom_same_pair(av[k], a, b)),
        forall|a: Seq<char>, b: Seq<char>| #[trigger] different_upto(av, k + 1, a, b) <==> (different_upto(av, k, a, b) || axiom_different(av[k], a, b)),
{
    assert forall|i: Seq<char>, c: ClassExpressionV| #[trigger] label_upto(av, k + 1, i, c) <==> (label_upto(av, k, i, c) || axiom_label(av[k], i, c)) by {
        if label_upto(av, k + 1, i, c) {
            let q = choose|q: int| 0 <= q < k + 1 && #[trigger] axiom_label(av[q], i, c);
            if q < k { assert(label_upto(av, k, i, c)); }
        }
        if label_upto(av, k, i, c) {
            let q = choose|q: int| 0 <= q < k && #[trigger] axiom_label(av[q], i, c);
            assert(axiom_label(av[q], i, c));
        }
    }
    assert forall|i: Seq<char>, p: PropertyExpressionV, j: Seq<char>| #[trigger] link_upto(av, k + 1, i, p, j) <==> (link_upto(av, k, i, p, j) || axiom_link(av[k], i, p, j)) by {
        if link_upto(av, k + 1, i, p, j) {
            let q = choose|q: int| 0 <= q < k + 1 && #[trigger] axiom_link(av[q], i, p, j);
            if q < k { assert(link_upto(av, k, i, p, j)); }
        }
        if link_upto(av, k, i, p, j) {
            let q = choose|q: int| 0 <= q < k && #[trigger] axiom_link(av[q], i, p, j);
            assert(axiom_link(av[q], i, p, j));
        }
    }
    assert forall|a: Seq<char>, b: Seq<char>| #[trigger] same_upto(av, k + 1, a, b) <==> (same_upto(av, k, a, b) || axiom_same_pair(av[k], a, b)) by {
        if same_upto(av, k + 1, a, b) {
            let q = choose|q: int| 0 <= q < k + 1 && #[trigger] axiom_same_pair(av[q], a, b);
            if q < k { assert(same_upto(av, k, a, b)); }
        }
        if same_upto(av, k, a, b) {
            let q = choose|q: int| 0 <= q < k && #[trigger] axiom_same_pair(av[q], a, b);
            assert(axiom_same_pair(av[q], a, b));
        }
    }
    assert forall|a: Seq<char>, b: Seq<char>| #[trigger] different_upto(av, k + 1, a, b) <==> (different_upto(av, k, a, b) || axiom_different(av[k], a, b)) by {
        if different_upto(av, k + 1, a, b) {
            let q = choose|q: int| 0 <= q < k + 1 && #[trigger] axiom_different(av[q], a, b);
            if q < k { assert(different_upto(av, k, a, b)); }
        }
        if different_upto(av, k, a, b) {
            let q = choose|q: int| 0 <= q < k && #[trigger] axiom_different(av[q], a, b);
            assert(axiom_different(av[q], a, b));
        }
    }
}

/// Six graphs in a row with the same relations.
proof fn lemma_same_relations_chain(s0: DlCompletionGraph, s1: DlCompletionGraph, s2: DlCompletionGraph,
    s3: DlCompletionGraph, s4: DlCompletionGraph, s5: DlCompletionGraph)
    requires
        s1.same_relations(s0),
        s2.same_relations(s1),
        s3.same_relations(s2),
        s4.same_relations(s3),
        s5.same_relations(s4),
    ensures
        s5.same_relations(s0),
        s5.same_relations(s1),
        s5.same_relations(s2),
        s5.same_relations(s4),
{
}

/// The class of `x`, if it is in one.
fn find_class(cs: &Vec<Vec<Individual>>, x: &Individual) -> (r: Option<usize>)
    ensures
        match r {
            Some(k) => k < cs@.len() && node_views(cs@[k as int]@).contains(x.node_view()),
            None => forall|k: int| 0 <= k < cs@.len() ==> !node_views(#[trigger] cs@[k]@).contains(x.node_view()),
        },
{
    let mut k: usize = 0;
    while k < cs.len()
        invariant
            k <= cs@.len(),
            forall|q: int| 0 <= q < k ==> !node_views(#[trigger] cs@[q]@).contains(x.node_view()),
        decreases cs.len() - k,
    {
        if contains_node(&cs[k], x) {
            return Some(k);
        }
        k += 1;
    }
    None
}

/// Two individuals that are in class `a` stay together when nothing
/// changes.
proof fn lemma_same_class_merge(cs: Seq<Vec<Individual>>, a: int, v1: Seq<char>, v2: Seq<char>)
    requires
        classes_wf(cs),
        0 <= a < cs.len(),
        node_views(cs[a]@).contains(v1),
        node_views(cs[a]@).contains(v2),
    ensures
        forall|x: Seq<char>, y: Seq<char>| in_same_class(cs, x, y) <==> (in_same_class(cs, x, y)
            || ((x == v1 || x == v2 || in_same_class(cs, x, v1) || in_same_class(cs, x, v2))
                && (y == v1 || y == v2 || in_same_class(cs, y, v1) || in_same_class(cs, y, v2)))),
{
    assert forall|x: Seq<char>| (x == v1 || x == v2 || in_same_class(cs, x, v1) || in_same_class(cs, x, v2)) implies node_views(cs[a]@).contains(x) by {
        lemma_class_of(cs, a, x, v1);
        lemma_class_of(cs, a, x, v2);
    }
}

/// A member of class `a` that shares a class with `x` shares class `a`.
proof fn lemma_class_of(cs: Seq<Vec<Individual>>, a: int, x: Seq<char>, v: Seq<char>)
    requires
        classes_wf(cs),
        0 <= a < cs.len(),
        node_views(cs[a]@).contains(v),
    ensures
        (x == v || in_same_class(cs, x, v)) ==> node_views(cs[a]@).contains(x),
{
    if in_same_class(cs, x, v) {
        let k = choose|k: int| 0 <= k < cs.len() && #[trigger] node_views(cs[k]@).contains(x) && node_views(cs[k]@).contains(v);
        if k != a {
            if k < a {
                assert(!(node_views(cs[k]@).contains(v) && node_views(cs[a]@).contains(v)));
            } else {
                assert(!(node_views(cs[a]@).contains(v) && node_views(cs[k]@).contains(v)));
            }
        }
    }
}

/// No class holds `v`: it shares a class with nobody.
proof fn lemma_in_no_class(cs: Seq<Vec<Individual>>, v: Seq<char>)
    requires
        forall|k: int| 0 <= k < cs.len() ==> !node_views(#[trigger] cs[k]@).contains(v),
    ensures
        forall|x: Seq<char>| !in_same_class(cs, x, v),
{
}

/// Adding `vn`, which is in no class, to class `a` that holds `vi`.
proof fn lemma_add_to_class(cs0: Seq<Vec<Individual>>, a: int, c1: Seq<Individual>, c2: Seq<Individual>, cs1: Seq<Vec<Individual>>, vn: Seq<char>, vi: Seq<char>)
    requires
        classes_wf(cs0),
        0 <= a < cs0.len(),
        cs0[a]@ == c1,
        node_views(c1).contains(vi),
        forall|k: int| 0 <= k < cs0.len() ==> !node_views(#[trigger] cs0[k]@).contains(vn),
        c2.len() == c1.len() + 1,
        forall|q: int| 0 <= q < c1.len() ==> c2[q] == c1[q],
        c2[c1.len() as int].node_view() == vn,
        cs1.len() == cs0.len(),
        cs1[a]@ == c2,
        forall|k: int| 0 <= k < cs0.len() && k != a ==> cs1[k] == cs0[k],
    ensures
        classes_wf(cs1),
        forall|x: Seq<char>, y: Seq<char>| in_same_class(cs1, x, y) <==> (in_same_class(cs0, x, y)
            || ((x == vi || x == vn || in_same_class(cs0, x, vi) || in_same_class(cs0, x, vn))
                && (y == vi || y == vn || in_same_class(cs0, y, vi) || in_same_class(cs0, y, vn)))),
{
    let n1 = node_views(c1);
    let n2 = node_views(c2);
    assert(n2 =~= n1.push(vn));
    assert forall|x: Seq<char>| n2.contains(x) <==> (n1.contains(x) || x == vn) by {
        if n2.contains(x) {
            let q = choose|q: int| 0 <= q < n2.len() && n2[q] == x;
            if q < n1.len() { assert(n1[q] == x); }
        }
        if n1.contains(x) {
            let q = choose|q: int| 0 <= q < n1.len() && n1[q] == x;
            assert(n2[q] == x);
        }
        if x == vn { assert(n2[n1.len() as int] == x); }
    }
    lemma_in_no_class(cs0, vn);
    assert forall|x: Seq<char>| (x == vi || x == vn || in_same_class(cs0, x, vi) || in_same_class(cs0, x, vn)) <==> n2.contains(x) by {
        lemma_class_of(cs0, a, x, vi);
        if n1.contains(x) {
            assert(node_views(cs0[a]@).contains(x) && node_views(cs0[a]@).contains(vi));
            assert(in_same_class(cs0, x, vi));
        }
    }
    assert forall|k: int| 0 <= k < cs1.len() implies distinct(node_views(#[trigger] cs1[k]@)) by {
        if k == a {
            assert forall|i: int, j: int| 0 <= i < j < n2.len() implies n2[i] != n2[j] by {
                if j == n1.len() {
                    assert(n1.contains(n2[i]));
                    assert(node_views(cs0[a]@).contains(n2[i]));
                } else {
                    assert(n2[i] == n1[i] && n2[j] == n1[j]);
                }
            }
        } else {
            assert(cs1[k] == cs0[k]);
        }
    }
    assert forall|k: int, l: int, x: Seq<char>| 0 <= k < l < cs1.len() implies
        !(#[trigger] node_views(cs1[k]@).contains(x) && #[trigger] node_views(cs1[l]@).contains(x)) by {
        if k != a && l != a {
            assert(cs1[k] == cs0[k] && cs1[l] == cs0[l]);
        } else if k == a {
            assert(cs1[l] == cs0[l]);
            if n2.contains(x) && node_views(cs0[l]@).contains(x) {
                assert(n1.contains(x));
                assert(node_views(cs0[a]@).contains(x));
            }
        } else {
            assert(cs1[k] == cs0[k]);
            if n2.contains(x) && node_views(cs0[k]@).contains(x) {
                assert(n1.contains(x));
                assert(node_views(cs0[a]@).contains(x));
            }
        }
    }
    assert forall|x: Seq<char>, y: Seq<char>| in_same_class(cs1, x, y) <==> (in_same_class(cs0, x, y) || (n2.contains(x) && n2.contains(y))) by {
        if in_same_class(cs1, x, y) {
            let k = choose|k: int| 0 <= k < cs1.len() && #[trigger] node_views(cs1[k]@).contains(x) && node_views(cs1[k]@).contains(y);
            if k != a {
                assert(cs1[k] == cs0[k]);
                assert(node_views(cs0[k]@).contains(x) && node_views(cs0[k]@).contains(y));
            }
        }
        if in_same_class(cs0, x, y) {
            let k = choose|k: int| 0 <= k < cs0.len() && #[trigger] node_views(cs0[k]@).contains(x) && node_views(cs0[k]@).contains(y);
            if k != a {
                assert(cs1[k] == cs0[k]);
                assert(node_views(cs1[k]@).contains(x) && node_views(cs1[k]@).contains(y));
            } else {
                assert(n2.contains(x) && n2.contains(y));
                assert(node_views(cs1[a]@).contains(x) && node_views(cs1[a]@).contains(y));
            }
        }
        if n2.contains(x) && n2.contains(y) {
            assert(node_views(cs1[a]@).contains(x) && node_views(cs1[a]@).contains(y));
        }
    }
}

/// A new class of `v1` and `v2`, neither in a class before.
proof fn lemma_new_class(cs0: Seq<Vec<Individual>>, cs1: Seq<Vec<Individual>>, v1: Seq<char>, v2: Seq<char>)
    requires
        classes_wf(cs0),
        forall|k: int| 0 <= k < cs0.len() ==> !node_views(#[trigger] cs0[k]@).contains(v1),
        forall|k: int| 0 <= k < cs0.len() ==> !node_views(#[trigger] cs0[k]@).contains(v2),
        cs1.len() == cs0.len() + 1,
        forall|k: int| 0 <= k < cs0.len() ==> cs1[k] == cs0[k],
        forall|x: Seq<char>| node_views(cs1[cs0.len() as int]@).contains(x) <==> (x == v1 || x == v2),
        distinct(node_views(cs1[cs0.len() as int]@)),
    ensures
        classes_wf(cs1),
        forall|x: Seq<char>, y: Seq<char>| in_same_class(cs1, x, y) <==> (in_same_class(cs0, x, y)
            || ((x == v1 || x == v2 || in_same_class(cs0, x, v1) || in_same_class(cs0, x, v2))
                && (y == v1 || y == v2 || in_same_class(cs0, y, v1) || in_same_class(cs0, y, v2)))),
{
    let n = cs0.len() as int;
    lemma_in_no_class(cs0, v1);
    lemma_in_no_class(cs0, v2);
    assert forall|k: int| 0 <= k < cs1.len() implies distinct(node_views(#[trigger] cs1[k]@)) by {
        if k < n { assert(cs1[k] == cs0[k]); }
    }
    assert forall|k: int, l: int, x: Seq<char>| 0 <= k < l < cs1.len() implies
        !(#[trigger] node_views(cs1[k]@).contains(x) && #[trigger] node_views(cs1[l]@).contains(x)) by {
        assert(cs1[k] == cs0[k]);
        if l < n {
            assert(cs1[l] == cs0[l]);
        }
    }
    assert forall|x: Seq<char>, y: Seq<char>| in_same_class(cs1, x, y) <==> (in_same_class(cs0, x, y)
        || ((x == v1 || x == v2) && (y == v1 || y == v2))) by {
        if in_same_class(cs1, x, y) {
            let k = choose|k: int| 0 <= k < cs1.len() && #[trigger] node_views(cs1[k]@).contains(x) && node_views(cs1[k]@).contains(y);
            if k < n {
                assert(cs1[k] == cs0[k]);
                assert(node_views(cs0[k]@).contains(x) && node_views(cs0[k]@).contains(y));
            }
        }
        if in_same_class(cs0, x, y) {
            let k = choose|k: int| 0 <= k < cs0.len() && #[trigger] node_views(cs0[k]@).contains(x) && node_views(cs0[k]@).contains(y);
            assert(cs1[k] == cs0[k]);
            assert(node_views(cs1[k]@).contains(x) && node_views(cs1[k]@).contains(y));
        }
        if (x == v1 || x == v2) && (y == v1 || y == v2) {
            assert(node_views(cs1[n]@).contains(x) && node_views(cs1[n]@).contains(y));
        }
    }
}

/// Merging class `b` into class `a` (at position `a2` once `b` is gone).
proof fn lemma_merge(cs0: Seq<Vec<Individual>>, a: int, b: int, a2: int, c1: Seq<Individual>, removed: Seq<Individual>, m: Seq<Individual>,
    cs1: Seq<Vec<Individual>>, v1: Seq<char>, v2: Seq<char>)
    requires
        classes_wf(cs0),
        0 <= a < cs0.len(),
        0 <= b < cs0.len(),
        a != b,
        a2 == if b < a { a - 1 } else { a },
        c1 == cs0[a]@,
        removed == cs0[b]@,
        node_views(cs0[a]@).contains(v1),
        node_views(cs0[b]@).contains(v2),
        m.len() == c1.len() + removed.len(),
        forall|q: int| 0 <= q < c1.len() ==> m[q] == c1[q],
        forall|q: int| 0 <= q < removed.len() ==> (#[trigger] m[c1.len() + q]).node_view() == removed[q].node_view(),
        cs1 == cs0.remove(b).remove(a2).insert(a2, cs1[a2]),
        cs1[a2]@ == m,
    ensures
        classes_wf(cs1),
        forall|x: Seq<char>, y: Seq<char>| in_same_class(cs1, x, y) <==> (in_same_class(cs0, x, y)
            || ((x == v1 || x == v2 || in_same_class(cs0, x, v1) || in_same_class(cs0, x, v2))
                && (y == v1 || y == v2 || in_same_class(cs0, y, v1) || in_same_class(cs0, y, v2)))),
{
    let na = node_views(c1);
    let nb = node_views(removed);
    let nm = node_views(m);
    assert(nm =~= na + nb) by {
        assert forall|q: int| 0 <= q < nm.len() implies nm[q] == (na + nb)[q] by {
            if q >= c1.len() {
                let r = q - c1.len();
                assert(m[c1.len() + r] == m[q]);
            }
        }
    }
    assert forall|x: Seq<char>| nm.contains(x) <==> (na.contains(x) || nb.contains(x)) by {
        if nm.contains(x) {
            let q = choose|q: int| 0 <= q < nm.len() && nm[q] == x;
            if q < na.len() { assert(na[q] == x); } else { assert(nb[q - na.len()] == x); }
        }
        if na.contains(x) {
            let q = choose|q: int| 0 <= q < na.len() && na[q] == x;
            assert(nm[q] == x);
        }
        if nb.contains(x) {
            let q = choose|q: int| 0 <= q < nb.len() && nb[q] == x;
            assert(nm[na.len() + q] == x);
        }
    }
    // every class but the merged one keeps its place in the order, `b` left out
    let r1 = cs0.remove(b);
    let rest = r1.remove(a2);
    assert(a2 < r1.len());
    assert forall|k: int| 0 <= k < cs1.len() && k != a2 implies #[trigger] cs1[k] == cs0[shifted(k, b)] by {
        if k < a2 {
            assert(cs1[k] == rest[k]);
            assert(rest[k] == r1[k]);
        } else {
            assert(cs1[k] == rest[k - 1]);
            assert(rest[k - 1] == r1[k]);
        }
        if k < b { assert(r1[k] == cs0[k]); } else { assert(r1[k] == cs0[k + 1]); }
    }
    assert(shifted(a2, b) == a);
    assert forall|x: Seq<char>| (x == v1 || x == v2 || in_same_class(cs0, x, v1) || in_same_class(cs0, x, v2)) <==> nm.contains(x) by {
        lemma_class_of(cs0, a, x, v1);
        lemma_class_of(cs0, b, x, v2);
        if na.contains(x) {
            assert(node_views(cs0[a]@).contains(x) && node_views(cs0[a]@).contains(v1));
        }
        if nb.contains(x) {
            assert(node_views(cs0[b]@).contains(x) && node_views(cs0[b]@).contains(v2));
        }
    }
    assert forall|k: int| 0 <= k < cs1.len() implies distinct(node_views(#[trigger] cs1[k]@)) by {
        if k == a2 {
            assert forall|i: int, j: int| 0 <= i < j < nm.len() implies nm[i] != nm[j] by {
                if j < na.len() {
                    assert(nm[i] == na[i] && nm[j] == na[j]);
                } else if i >= na.len() {
                    assert(nm[i] == nb[i - na.len()] && nm[j] == nb[j - na.len()]);
                } else {
                    assert(nm[i] == na[i] && nm[j] == nb[j - na.len()]);
                    assert(na.contains(nm[i]));
                    assert(nb.contains(nm[j]));
                    if a < b {
                        assert(!(node_views(cs0[a]@).contains(nm[i]) && node_views(cs0[b]@).contains(nm[i])));
                    } else {
                        assert(!(node_views(cs0[b]@).contains(nm[i]) && node_views(cs0[a]@).contains(nm[i])));
                    }
                }
            }
        } else {
            assert(cs1[k] == cs0[shifted(k, b)]);
        }
    }
    assert forall|k: int, l: int, x: Seq<char>| 0 <= k < l < cs1.len() implies
        !(#[trigger] node_views(cs1[k]@).contains(x) && #[trigger] node_views(cs1[l]@).contains(x)) by {
        if k != a2 && l != a2 {
            assert(cs1[k] == cs0[shifted(k, b)] && cs1[l] == cs0[shifted(l, b)]);
        } else {
            let o = if k == a2 { l } else { k };
            let o0 = shifted(o, b);
            assert(cs1[o] == cs0[o0]);
            if nm.contains(x) && node_views(cs0[o0]@).contains(x) {
                if na.contains(x) {
                    if a < o0 {
                        assert(!(node_views(cs0[a]@).contains(x) && node_views(cs0[o0]@).contains(x)));
                    } else {
                        assert(!(node_views(cs0[o0]@).contains(x) && node_views(cs0[a]@).contains(x)));
                    }
                } else {
                    if b < o0 {
                        assert(!(node_views(cs0[b]@).contains(x) && node_views(cs0[o0]@).contains(x)));
                    } else {
                        assert(!(node_views(cs0[o0]@).contains(x) && node_views(cs0[b]@).contains(x)));
                    }
                }
            }
        }
    }
    assert forall|x: Seq<char>, y: Seq<char>| in_same_class(cs1, x, y) <==> (in_same_class(cs0, x, y) || (nm.contains(x) && nm.contains(y))) by {
        if in_same_class(cs1, x, y) {
            let k = choose|k: int| 0 <= k < cs1.len() && #[trigger] node_views(cs1[k]@).contains(x) && node_views(cs1[k]@).contains(y);
            if k != a2 {
                assert(cs1[k] == cs0[shifted(k, b)]);
                assert(node_views(cs0[shifted(k, b)]@).contains(x) && node_views(cs0[shifted(k, b)]@).contains(y));
            }
        }
        if in_same_class(cs0, x, y) {
            let k0 = choose|k0: int| 0 <= k0 < cs0.len() && #[trigger] node_views(cs0[k0]@).contains(x) && node_views(cs0[k0]@).contains(y);
            if k0 == a || k0 == b {
                assert(nm.contains(x) && nm.contains(y));
                assert(node_views(cs1[a2]@).contains(x) && node_views(cs1[a2]@).contains(y));
            } else {
                let k = if k0 < b { k0 } else { k0 - 1 };
                assert(shifted(k, b) == k0);
                assert(k != a2);
                assert(cs1[k] == cs0[shifted(k, b)]);
                assert(node_views(cs1[k]@).contains(x) && node_views(cs1[k]@).contains(y));
            }
        }
        if nm.contains(x) && nm.contains(y) {
            assert(node_views(cs1[a2]@).contains(x) && node_views(cs1[a2]@).contains(y));
        }
    }
}

/// Position in the order before class `b` was taken out.
spec fn shifted(k: int, b: int) -> int {
    if k < b { k } else { k + 1 }
}


/// `c` is a member of an intersection that labels `i`.
pub open spec fn intersection_part(g: DlCompletionGraph, i: Seq<char>, c: ClassExpressionV) -> bool {
    exists|cs: Seq<ClassExpressionV>| #[trigger] g.labeled(i, ClassExpressionV::IntersectionOf(cs)) && cs.contains(c)
}

/// Some `j` labelled `AllValuesFrom(p, c)` has a `p` edge to `i`.
pub open spec fn universal_part(g: DlCompletionGraph, i: Seq<char>, c: ClassExpressionV) -> bool {
    exists|j: Seq<char>, p: PropertyExpressionV| #[trigger] g.labeled(j, ClassExpressionV::AllValuesFrom(p, Box::new(c))) && g.linked(j, p, i)
}

/// `g1` has a label that `g0` lacks.
pub open spec fn gained_label(g1: DlCompletionGraph, g0: DlCompletionGraph) -> bool {
    exists|i: Seq<char>, c: ClassExpressionV| #[trigger] g1.labeled(i, c) && !g0.labeled(i, c)
}

/// `g1` has a label or an edge that `g0` lacks.
pub open spec fn grew(g1: DlCompletionGraph, g0: DlCompletionGraph) -> bool {
    ||| exists|i: Seq<char>, c: ClassExpressionV| #[trigger] g1.labeled(i, c) && !g0.labeled(i, c)
    ||| exists|i: Seq<char>, p: PropertyExpressionV, j: Seq<char>| #[trigger] g1.linked(i, p, j) && !g0.linked(i, p, j)
}

/// What a graph gained over its predecessor it gained over every earlier
/// graph, and a gain is kept while the graph grows.
proof fn lemma_grew_after(g0: DlCompletionGraph, gb: DlCompletionGraph, g2: DlCompletionGraph)
    requires
        gb.extends(g0),
        g2.extends(gb),
        grew(gb, g0) || grew(g2, gb),
    ensures
        grew(g2, g0),
{
    if exists|i: Seq<char>, c: ClassExpressionV| #[trigger] gb.labeled(i, c) && !g0.labeled(i, c) {
        let (i, c) = choose|i: Seq<char>, c: ClassExpressionV| #[trigger] gb.labeled(i, c) && !g0.labeled(i, c);
        assert(g2.labeled(i, c));
    } else if exists|i: Seq<char>, p: PropertyExpressionV, j: Seq<char>| #[trigger] gb.linked(i, p, j) && !g0.linked(i, p, j) {
        let (i, p, j) = choose|i: Seq<char>, p: PropertyExpressionV, j: Seq<char>| #[trigger] gb.linked(i, p, j) && !g0.linked(i, p, j);
        assert(g2.linked(i, p, j));
    } else if exists|i: Seq<char>, c: ClassExpressionV| #[trigger] g2.labeled(i, c) && !gb.labeled(i, c) {
        let (i, c) = choose|i: Seq<char>, c: ClassExpressionV| #[trigger] g2.labeled(i, c) && !gb.labeled(i, c);
        assert(!g0.labeled(i, c));
    } else {
        let (i, p, j) = choose|i: Seq<char>, p: PropertyExpressionV, j: Seq<char>| #[trigger] g2.linked(i, p, j) && !gb.linked(i, p, j);
        assert(!g0.linked(i, p, j));
    }
}

/// Every label or edge that `g` has beyond `g0` is one that the existential
/// rule adds for a `SomeValuesFrom(p, c)` label of `g0` on `i`: `c` on a `p`
/// successor of `i`, or a `p` edge from `i` to the individual named
/// `anon_` followed by `i`; new nodes carry a label, and sameness and
/// difference are unchanged.
pub open spec fn ex_growth(g: DlCompletionGraph, g0: DlCompletionGraph) -> bool {
    &&& forall|j: Seq<char>, c: ClassExpressionV| #[trigger] g.labeled(j, c) && !g0.labeled(j, c) ==>
        exists|i: Seq<char>, p: PropertyExpressionV|
            #[trigger] g0.labeled(i, ClassExpressionV::SomeValuesFrom(p, Box::new(c))) && #[trigger] g.linked(i, p, j)
    &&& forall|i: Seq<char>, p: PropertyExpressionV, j: Seq<char>| #[trigger] g.linked(i, p, j) && !g0.linked(i, p, j) ==>
        j == "anon_"@ + i && exists|c: ClassExpressionV| #[trigger] g0.labeled(i, ClassExpressionV::SomeValuesFrom(p, Box::new(c)))
    &&& forall|j: Seq<char>| #[trigger] g.has_node(j) && !g0.has_node(j) ==> exists|c: ClassExpressionV| #[trigger] g.labeled(j, c)
    &&& forall|a: Seq<char>, b: Seq<char>| #[trigger] g.same(a, b) == g0.same(a, b)
    &&& forall|a: Seq<char>, b: Seq<char>| #[trigger] g.different(a, b) == g0.different(a, b)
}

/// Adding the label `c` to a `p` successor `j` of a `SomeValuesFrom(p, c)`
/// node keeps the growth one of the existential rule.
proof fn lemma_ex_growth_label(g0: DlCompletionGraph, gb: DlCompletionGraph, g2: DlCompletionGraph,
    i: Seq<char>, p: PropertyExpressionV, j: Seq<char>, c: ClassExpressionV)
    requires
        ex_growth(gb, g0),
        gb.extends(g0),
        g0.labeled(i, ClassExpressionV::SomeValuesFrom(p, Box::new(c))),
        gb.linked(i, p, j),
        forall|x: Seq<char>| g2.has_node(x) <==> (gb.has_node(x) || x == j),
        forall|x: Seq<char>, d: ClassExpressionV| g2.labeled(x, d) <==> (gb.labeled(x, d) || (x == j && d == c)),
        forall|x: Seq<char>, q: PropertyExpressionV, y: Seq<char>| g2.linked(x, q, y) == gb.linked(x, q, y),
        forall|a: Seq<char>, b: Seq<char>| g2.same(a, b) == gb.same(a, b),
        forall|a: Seq<char>, b: Seq<char>| g2.different(a, b) == gb.different(a, b),
    ensures
        ex_growth(g2, g0),
{
    assert forall|x: Seq<char>, d: ClassExpressionV| #[trigger] g2.labeled(x, d) && !g0.labeled(x, d) implies
        exists|i2: Seq<char>, p2: PropertyExpressionV|
            #[trigger] g0.labeled(i2, ClassExpressionV::SomeValuesFrom(p2, Box::new(d))) && #[trigger] g2.linked(i2, p2, x) by {
        if gb.labeled(x, d) {
            let (i2, p2) = choose|i2: Seq<char>, p2: PropertyExpressionV|
                #[trigger] g0.labeled(i2, ClassExpressionV::SomeValuesFrom(p2, Box::new(d))) && #[trigger] gb.linked(i2, p2, x);
            assert(g2.linked(i2, p2, x));
        } else {
            assert(g2.linked(i, p, j));
        }
    }
    assert forall|x: Seq<char>| #[trigger] g2.has_node(x) && !g0.has_node(x) implies exists|d: ClassExpressionV| #[trigger] g2.labeled(x, d) by {
        if x == j {
            assert(g2.labeled(j, c));
        } else {
            let d = choose|d: ClassExpressionV| #[trigger] gb.labeled(x, d);
            assert(g2.labeled(x, d));
        }
    }
    assert forall|x: Seq<char>, q: PropertyExpressionV, y: Seq<char>| #[trigger] g2.linked(x, q, y) && !g0.linked(x, q, y) implies
        y == "anon_"@ + x && exists|d: ClassExpressionV| #[trigger] g0.labeled(x, ClassExpressionV::SomeValuesFrom(q, Box::new(d))) by {
        assert(gb.linked(x, q, y));
    }
}

/// Adding a `p` edge from a `SomeValuesFrom(p, c)` node `i` to the
/// individual named `anon_` followed by `i` keeps the growth one of the
/// existential rule.
proof fn lemma_ex_growth_link(g0: DlCompletionGraph, gb: DlCompletionGraph, g2: DlCompletionGraph,
    i: Seq<char>, p: PropertyExpressionV, c: ClassExpressionV)
    requires
        ex_growth(gb, g0),
        g0.labeled(i, ClassExpressionV::SomeValuesFrom(p, Box::new(c))),
        forall|x: Seq<char>| g2.has_node(x) == gb.has_node(x),
        forall|x: Seq<char>, d: ClassExpressionV| g2.labeled(x, d) == gb.labeled(x, d),
        forall|x: Seq<char>, q: PropertyExpressionV, y: Seq<char>| g2.linked(x, q, y) <==> (gb.linked(x, q, y)
            || (x == i && q == p && y == "anon_"@ + i)),
        forall|a: Seq<char>, b: Seq<char>| g2.same(a, b) == gb.same(a, b),
        forall|a: Seq<char>, b: Seq<char>| g2.different(a, b) == gb.different(a, b),
    ensures
        ex_growth(g2, g0),
{
    assert forall|x: Seq<char>, d: ClassExpressionV| #[trigger] g2.labeled(x, d) && !g0.labeled(x, d) implies
        exists|i2: Seq<char>, p2: PropertyExpressionV|
            #[trigger] g0.labeled(i2, ClassExpressionV::SomeValuesFrom(p2, Box::new(d))) && #[trigger] g2.linked(i2, p2, x) by {
        let (i2, p2) = choose|i2: Seq<char>, p2: PropertyExpressionV|
            #[trigger] g0.labeled(i2, ClassExpressionV::SomeValuesFrom(p2, Box::new(d))) && #[trigger] gb.linked(i2, p2, x);
        assert(g2.linked(i2, p2, x));
    }
    assert forall|x: Seq<char>| #[trigger] g2.has_node(x) && !g0.has_node(x) implies exists|d: ClassExpressionV| #[trigger] g2.labeled(x, d) by {
        let d = choose|d: ClassExpressionV| #[trigger] gb.labeled(x, d);
        assert(g2.labeled(x, d));
    }
    assert forall|x: Seq<char>, q: PropertyExpressionV, y: Seq<char>| #[trigger] g2.linked(x, q, y) && !g0.linked(x, q, y) implies
        y == "anon_"@ + x && exists|d: ClassExpressionV| #[trigger] g0.labeled(x, ClassExpressionV::SomeValuesFrom(q, Box::new(d))) by {
        if !gb.linked(x, q, y) {
            assert(g0.labeled(i, ClassExpressionV::SomeValuesFrom(p, Box::new(c))));
        }
    }
}

/// Every label or edge that `g` has beyond `g0` is one that an individual
/// has from another that `g0` holds the same: a label of it or an edge
/// of it in `g`; new nodes carry a label, and sameness and difference are
/// unchanged.
pub open spec fn same_growth(g: DlCompletionGraph, g0: DlCompletionGraph) -> bool {
    &&& forall|t: Seq<char>, c: ClassExpressionV| #[trigger] g.labeled(t, c) && !g0.labeled(t, c) ==>
        exists|s: Seq<char>| s != t && #[trigger] g0.same(s, t) && #[trigger] g.labeled(s, c)
    &&& forall|t: Seq<char>, p: PropertyExpressionV, j: Seq<char>| #[trigger] g.linked(t, p, j) && !g0.linked(t, p, j) ==>
        exists|s: Seq<char>| s != t && #[trigger] g0.same(s, t) && #[trigger] g.linked(s, p, j)
    &&& forall|j: Seq<char>| #[trigger] g.has_node(j) && !g0.has_node(j) ==> exists|c: ClassExpressionV| #[trigger] g.labeled(j, c)
    &&& forall|a: Seq<char>, b: Seq<char>| #[trigger] g.same(a, b) == g0.same(a, b)
    &&& forall|a: Seq<char>, b: Seq<char>| #[trigger] g.different(a, b) == g0.different(a, b)
}

/// Giving `t` a label of an individual `s` that `g0` holds the same keeps
/// the growth one of copying between same individuals.
proof fn lemma_same_growth_label(g0: DlCompletionGraph, gb: DlCompletionGraph, g2: DlCompletionGraph,
    s: Seq<char>, t: Seq<char>, c: ClassExpressionV)
    requires
        same_growth(gb, g0),
        s != t,
        g0.same(s, t),
        gb.labeled(s, c),
        forall|x: Seq<char>| g2.has_node(x) <==> (gb.has_node(x) || x == t),
        forall|x: Seq<char>, d: ClassExpressionV| g2.labeled(x, d) <==> (gb.labeled(x, d) || (x == t && d == c)),
        forall|x: Seq<char>, q: PropertyExpressionV, y: Seq<char>| g2.linked(x, q, y) == gb.linked(x, q, y),
        forall|a: Seq<char>, b: Seq<char>| g2.same(a, b) == gb.same(a, b),
        forall|a: Seq<char>, b: Seq<char>| g2.different(a, b) == gb.different(a, b),
    ensures
        same_growth(g2, g0),
{
    assert forall|x: Seq<char>, d: ClassExpressionV| #[trigger] g2.labeled(x, d) && !g0.labeled(x, d) implies
        exists|s2: Seq<char>| s2 != x && #[trigger] g0.same(s2, x) && #[trigger] g2.labeled(s2, d) by {
        if gb.labeled(x, d) {
            let s2 = choose|s2: Seq<char>| s2 != x && #[trigger] g0.same(s2, x) && #[trigger] gb.labeled(s2, d);
            assert(g2.labeled(s2, d));
        } else {
            assert(g2.labeled(s, c));
        }
    }
    assert forall|x: Seq<char>, q: PropertyExpressionV, y: Seq<char>| #[trigger] g2.linked(x, q, y) && !g0.linked(x, q, y) implies
        exists|s2: Seq<char>| s2 != x && #[trigger] g0.same(s2, x) && #[trigger] g2.linked(s2, q, y) by {
        let s2 = choose|s2: Seq<char>| s2 != x && #[trigger] g0.same(s2, x) && #[trigger] gb.linked(s2, q, y);
        assert(g2.linked(s2, q, y));
    }
    assert forall|x: Seq<char>| #[trigger] g2.has_node(x) && !g0.has_node(x) implies exists|d: ClassExpressionV| #[trigger] g2.labeled(x, d) by {
        if x == t {
            assert(g2.labeled(t, c));
        } else {
            let d = choose|d: ClassExpressionV| #[trigger] gb.labeled(x, d);
            assert(g2.labeled(x, d));
        }
    }
}

/// Giving `t` an edge of an individual `s` that `g0` holds the same keeps
/// the growth one of copying between same individuals.
proof fn lemma_same_growth_link(g0: DlCompletionGraph, gb: DlCompletionGraph, g2: DlCompletionGraph,
    s: Seq<char>, t: Seq<char>, p: PropertyExpressionV, j: Seq<char>)
    requires
        same_growth(gb, g0),
        s != t,
        g0.same(s, t),
        gb.linked(s, p, j),
        forall|x: Seq<char>| g2.has_node(x) == gb.has_node(x),
        forall|x: Seq<char>, d: ClassExpressionV| g2.labeled(x, d) == gb.labeled(x, d),
        forall|x: Seq<char>, q: PropertyExpressionV, y: Seq<char>| g2.linked(x, q, y) <==> (gb.linked(x, q, y)
            || (x == t && q == p && y == j)),
        forall|a: Seq<char>, b: Seq<char>| g2.same(a, b) == gb.same(a, b),
        forall|a: Seq<char>, b: Seq<char>| g2.different(a, b) == gb.different(a, b),
    ensures
        same_growth(g2, g0),
{
    assert forall|x: Seq<char>, d: ClassExpressionV| #[trigger] g2.labeled(x, d) && !g0.labeled(x, d) implies
        exists|s2: Seq<char>| s2 != x && #[trigger] g0.same(s2, x) && #[trigger] g2.labeled(s2, d) by {
        let s2 = choose|s2: Seq<char>| s2 != x && #[trigger] g0.same(s2, x) && #[trigger] gb.labeled(s2, d);
        assert(g2.labeled(s2, d));
    }
    assert forall|x: Seq<char>, q: PropertyExpressionV, y: Seq<char>| #[trigger] g2.linked(x, q, y) && !g0.linked(x, q, y) implies
        exists|s2: Seq<char>| s2 != x && #[trigger] g0.same(s2, x) && #[trigger] g2.linked(s2, q, y) by {
        if gb.linked(x, q, y) {
            let s2 = choose|s2: Seq<char>| s2 != x && #[trigger] g0.same(s2, x) && #[trigger] gb.linked(s2, q, y);
            assert(g2.linked(s2, q, y));
        } else {
            assert(g2.linked(s, p, j));
        }
    }
    assert forall|x: Seq<char>| #[trigger] g2.has_node(x) && !g0.has_node(x) implies exists|d: ClassExpressionV| #[trigger] g2.labeled(x, d) by {
        let d = choose|d: ClassExpressionV| #[trigger] gb.labeled(x, d);
        assert(g2.labeled(x, d));
    }
}

/// The name of the `k`-th successor that the cardinality rule makes for `i`.
pub open spec fn min_fresh_name(i: Seq<char>, k: nat) -> Seq<char> {
    ("anon_min_"@ + i) + ("_"@ + crate::text::decimal_spec(k))
}

/// Every label or edge that `g` has beyond `g0` is one that the
/// cardinality rule adds for a `MinCardinality(n, p, c)` label of `g0` on
/// `i`: `c` on a `p` successor of `i`, or a `p` edge from `i` to a new
/// individual named after `i` and a count below `n`; new nodes carry a
/// label, and sameness and difference are unchanged.
pub open spec fn min_growth(g: DlCompletionGraph, g0: DlCompletionGraph) -> bool {
    &&& forall|j: Seq<char>, c: ClassExpressionV| #[trigger] g.labeled(j, c) && !g0.labeled(j, c) ==>
        exists|i: Seq<char>, n: u32, p: PropertyExpressionV|
            #[trigger] g0.labeled(i, ClassExpressionV::MinCardinality(n, p, Some(Box::new(c)))) && #[trigger] g.linked(i, p, j)
    &&& forall|i: Seq<char>, p: PropertyExpressionV, j: Seq<char>| #[trigger] g.linked(i, p, j) && !g0.linked(i, p, j) ==>
        exists|n: u32, c: ClassExpressionV, k: nat|
            #[trigger] g0.labeled(i, ClassExpressionV::MinCardinality(n, p, Some(Box::new(c)))) && k < n && #[trigger] min_fresh_name(i, k) == j
    &&& forall|j: Seq<char>| #[trigger] g.has_node(j) && !g0.has_node(j) ==> exists|c: ClassExpressionV| #[trigger] g.labeled(j, c)
    &&& forall|a: Seq<char>, b: Seq<char>| #[trigger] g.same(a, b) == g0.same(a, b)
    &&& forall|a: Seq<char>, b: Seq<char>| #[trigger] g.different(a, b) == g0.different(a, b)
}

/// Adding the label `c` to a `p` successor `j` of a
/// `MinCardinality(n, p, c)` node keeps the growth one of the cardinality
/// rule.
proof fn lemma_min_growth_label(g0: DlCompletionGraph, gb: DlCompletionGraph, g2: DlCompletionGraph,
    i: Seq<char>, n: u32, p: PropertyExpressionV, j: Seq<char>, c: ClassExpressionV)
    requires
        min_growth(gb, g0),
        g0.labeled(i, ClassExpressionV::MinCardinality(n, p, Some(Box::new(c)))),
        gb.linked(i, p, j),
        forall|x: Seq<char>| g2.has_node(x) <==> (gb.has_node(x) || x == j),
        forall|x: Seq<char>, d: ClassExpressionV| g2.labeled(x, d) <==> (gb.labeled(x, d) || (x == j && d == c)),
        forall|x: Seq<char>, q: PropertyExpressionV, y: Seq<char>| g2.linked(x, q, y) == gb.linked(x, q, y),
        forall|a: Seq<char>, b: Seq<char>| g2.same(a, b) == gb.same(a, b),
        forall|a: Seq<char>, b: Seq<char>| g2.different(a, b) == gb.different(a, b),
    ensures
        min_growth(g2, g0),
{
    assert forall|x: Seq<char>, d: ClassExpressionV| #[trigger] g2.labeled(x, d) && !g0.labeled(x, d) implies
        exists|i2: Seq<char>, n2: u32, p2: PropertyExpressionV|
            #[trigger] g0.labeled(i2, ClassExpressionV::MinCardinality(n2, p2, Some(Box::new(d)))) && #[trigger] g2.linked(i2, p2, x) by {
        if gb.labeled(x, d) {
            let (i2, n2, p2) = choose|i2: Seq<char>, n2: u32, p2: PropertyExpressionV|
                #[trigger] g0.labeled(i2, ClassExpressionV::MinCardinality(n2, p2, Some(Box::new(d)))) && #[trigger] gb.linked(i2, p2, x);
            assert(g2.linked(i2, p2, x));
        } else {
            assert(g2.linked(i, p, j));
        }
    }
    assert forall|x: Seq<char>| #[trigger] g2.has_node(x) && !g0.has_node(x) implies exists|d: ClassExpressionV| #[trigger] g2.labeled(x, d) by {
        if x == j {
            assert(g2.labeled(j, c));
        } else {
            let d = choose|d: ClassExpressionV| #[trigger] gb.labeled(x, d);
            assert(g2.labeled(x, d));
        }
    }
    assert forall|x: Seq<char>, q: PropertyExpressionV, y: Seq<char>| #[trigger] g2.linked(x, q, y) && !g0.linked(x, q, y) implies
        exists|n2: u32, d: ClassExpressionV, k: nat|
            #[trigger] g0.labeled(x, ClassExpressionV::MinCardinality(n2, q, Some(Box::new(d)))) && k < n2 && #[trigger] min_fresh_name(x, k) == y by {
        assert(gb.linked(x, q, y));
    }
}

/// Adding a `p` edge from a `MinCardinality(n, p, c)` node `i` to the
/// individual named after `i` and a count `k` below `n` keeps the growth
/// one of the cardinality rule.
proof fn lemma_min_growth_link(g0: DlCompletionGraph, gb: DlCompletionGraph, g2: DlCompletionGraph,
    i: Seq<char>, n: u32, p: PropertyExpressionV, c: ClassExpressionV, k: nat)
    requires
        min_growth(gb, g0),
        g0.labeled(i, ClassExpressionV::MinCardinality(n, p, Some(Box::new(c)))),
        k < n,
        forall|x: Seq<char>| g2.has_node(x) == gb.has_node(x),
        forall|x: Seq<char>, d: ClassExpressionV| g2.labeled(x, d) == gb.labeled(x, d),
        forall|x: Seq<char>, q: PropertyExpressionV, y: Seq<char>| g2.linked(x, q, y) <==> (gb.linked(x, q, y)
            || (x == i && q == p && y == min_fresh_name(i, k))),
        forall|a: Seq<char>, b: Seq<char>| g2.same(a, b) == gb.same(a, b),
        forall|a: Seq<char>, b: Seq<char>| g2.different(a, b) == gb.different(a, b),
    ensures
        min_growth(g2, g0),
{
    assert forall|x: Seq<char>, d: ClassExpressionV| #[trigger] g2.labeled(x, d) && !g0.labeled(x, d) implies
        exists|i2: Seq<char>, n2: u32, p2: PropertyExpressionV|
            #[trigger] g0.labeled(i2, ClassExpressionV::MinCardinality(n2, p2, Some(Box::new(d)))) && #[trigger] g2.linked(i2, p2, x) by {
        let (i2, n2, p2) = choose|i2: Seq<char>, n2: u32, p2: PropertyExpressionV|
            #[trigger] g0.labeled(i2, ClassExpressionV::MinCardinality(n2, p2, Some(Box::new(d)))) && #[trigger] gb.linked(i2, p2, x);
        assert(g2.linked(i2, p2, x));
    }
    assert forall|x: Seq<char>| #[trigger] g2.has_node(x) && !g0.has_node(x) implies exists|d: ClassExpressionV| #[trigger] g2.labeled(x, d) by {
        let d = choose|d: ClassExpressionV| #[trigger] gb.labeled(x, d);
        assert(g2.labeled(x, d));
    }
    assert forall|x: Seq<char>, q: PropertyExpressionV, y: Seq<char>| #[trigger] g2.linked(x, q, y) && !g0.linked(x, q, y) implies
        exists|n2: u32, d: ClassExpressionV, k2: nat|
            #[trigger] g0.labeled(x, ClassExpressionV::MinCardinality(n2, q, Some(Box::new(d)))) && k2 < n2 && #[trigger] min_fresh_name(x, k2) == y by {
        if !gb.linked(x, q, y) {
            assert(min_fresh_name(i, k) == y);
        }
    }
}

/// Two different individuals are the same, and the first has an edge.
pub open spec fn relinks_same(g: DlCompletionGraph) -> bool {
    exists|a: Seq<char>, b: Seq<char>, p: PropertyExpressionV, j: Seq<char>|
        a != b && #[trigger] g.same(a, b) && #[trigger] g.linked(a, p, j)
}

/// A graph that grew does not hold the same relations.
proof fn lemma_grew_not_same(g1: DlCompletionGraph, g0: DlCompletionGraph)
    requires
        grew(g1, g0),
    ensures
        !g1.same_relations(g0),
{
    if exists|i: Seq<char>, c: ClassExpressionV| #[trigger] g1.labeled(i, c) && !g0.labeled(i, c) {
        let (i, c) = choose|i: Seq<char>, c: ClassExpressionV| #[trigger] g1.labeled(i, c) && !g0.labeled(i, c);
        assert(g0.labeled(i, c) != g1.labeled(i, c));
    } else {
        let (i, p, j) = choose|i: Seq<char>, p: PropertyExpressionV, j: Seq<char>| #[trigger] g1.linked(i, p, j) && !g0.linked(i, p, j);
        assert(g0.linked(i, p, j) != g1.linked(i, p, j));
    }
}

/// A list without repeats whose members all occur in another list without
/// repeats is no longer than it.
proof fn lemma_distinct_len_le<V>(s: Seq<V>, t: Seq<V>)
    requires
        distinct(s),
        distinct(t),
        forall|x: V| s.contains(x) ==> t.contains(x),
    ensures
        s.len() <= t.len(),
{
    broadcast use vstd::seq_lib::seq_to_set_is_finite;
    assert(s.no_duplicates()) by {
        assert forall|i: int, j: int| 0 <= i < s.len() && 0 <= j < s.len() && i != j implies s[i] != s[j] by {
            if i < j {
            } else {
                assert(s[j] != s[i]);
            }
        }
    }
    s.unique_seq_to_set();
    t.lemma_cardinality_of_set();
    assert(s.to_set().subset_of(t.to_set())) by {
        assert forall|x: V| s.to_set().contains(x) implies t.to_set().contains(x) by {
            assert(s.contains(x));
        }
    }
    vstd::set_lib::lemma_len_subset(s.to_set(), t.to_set());
}

/// Individual `i` has at least `n` distinct `p` successors.
pub open spec fn successors_at_least(g: DlCompletionGraph, i: Seq<char>, p: PropertyExpressionV, n: nat) -> bool {
    exists|s: Seq<Seq<char>>| distinct(s) && n <= s.len() && forall|j: Seq<char>| #[trigger] s.contains(j) <==> g.linked(i, p, j)
}

/// A list of labels holds some class together with its complement.
pub open spec fn complement_pair(ls: Seq<ClassExpressionV>) -> bool {
    exists|c: ClassExpressionV| #[trigger] ls.contains(ClassExpressionV::ComplementOf(Box::new(c))) && ls.contains(c)
}

/// Whether a list of labels holds some class together with its complement.
fn has_complement_pair(ls: &Vec<ClassExpression>) -> (r: bool)
    ensures
        r == complement_pair(node_views(ls@)),
{
    let ghost lv = node_views(ls@);
    let mut k: usize = 0;
    while k < ls.len()
        invariant
            k <= ls@.len(),
            lv == node_views(ls@),
            forall|q: int| 0 <= q < k ==> (#[trigger] lv[q] matches ClassExpressionV::ComplementOf(b) ==> !lv.contains(*b)),
        decreases ls.len() - k,
    {
        proof {
            assert(lv[k as int] == ce_view(ls@[k as int]));
        }
        match &ls[k] {
            ClassExpression::ComplementOf(inner) => {
                if contains_node(ls, &**inner) {
                    proof {
                        assert(lv.contains(lv[k as int]));
                        assert(lv[k as int] == ClassExpressionV::ComplementOf(Box::new(ce_view(**inner))));
                    }
                    return true;
                }
            },
            _ => {},
        }
        k += 1;
    }
    proof {
        assert forall|c: ClassExpressionV| !(#[trigger] lv.contains(ClassExpressionV::ComplementOf(Box::new(c))) && lv.contains(c)) by {
            if lv.contains(ClassExpressionV::ComplementOf(Box::new(c))) {
                let q = choose|q: int| 0 <= q < lv.len() && lv[q] == ClassExpressionV::ComplementOf(Box::new(c));
                assert(lv[q] matches ClassExpressionV::ComplementOf(b));
            }
        }
    }
    false
}

/// Every member of an intersection labelling a node labels it too.
pub open spec fn inter_closed(g: DlCompletionGraph) -> bool {
    forall|i: Seq<char>, c: ClassExpressionV| #[trigger] intersection_part(g, i, c) ==> g.labeled(i, c)
}

/// Every successor of an `AllValuesFrom(p, c)` node along `p` is labelled `c`.
pub open spec fn univ_closed(g: DlCompletionGraph) -> bool {
    forall|i: Seq<char>, c: ClassExpressionV| #[trigger] universal_part(g, i, c) ==> g.labeled(i, c)
}

/// A `SomeValuesFrom(p, c)` node has a `p` successor, and all of them are
/// labelled `c`.
pub open spec fn ex_entry_ok(g: DlCompletionGraph, i: Seq<char>, x: ClassExpressionV) -> bool {
    x matches ClassExpressionV::SomeValuesFrom(p, bc) ==>
        (exists|j: Seq<char>| #[trigger] g.linked(i, p, j)) && (forall|j: Seq<char>| #[trigger] g.linked(i, p, j) ==> g.labeled(j, *bc))
}

/// Every label of `g` meets `ex_entry_ok`.
pub open spec fn ex_closed(g: DlCompletionGraph) -> bool {
    forall|i: Seq<char>, x: ClassExpressionV| #[trigger] g.labeled(i, x) ==> ex_entry_ok(g, i, x)
}

/// A `MinCardinality(n, p, c)` node with a class has at least `n`
/// distinct `p` successors.
pub open spec fn min_entry_ok(g: DlCompletionGraph, i: Seq<char>, x: ClassExpressionV) -> bool {
    x matches ClassExpressionV::MinCardinality(n, p, Some(bc)) ==> successors_at_least(g, i, p, n as nat)
}

/// Every label of `g` meets `min_entry_ok`.
pub open spec fn min_closed(g: DlCompletionGraph) -> bool {
    forall|i: Seq<char>, x: ClassExpressionV| #[trigger] g.labeled(i, x) ==> min_entry_ok(g, i, x)
}

/// No rule of the tableau would add to `g`: intersections are split,
/// universal restrictions reach every successor, existential
/// restrictions have a successor and reach all of them, and minimum
/// cardinalities with a class have enough successors.
pub open spec fn saturated(g: DlCompletionGraph) -> bool {
    &&& inter_closed(g)
    &&& univ_closed(g)
    &&& ex_closed(g)
    &&& min_closed(g)
}

/// Entry `e` of a label list is an intersection on `i` holding `c`.
pub open spec fn inter_entry(e: (Seq<char>, ClassExpressionV), i: Seq<char>, c: ClassExpressionV) -> bool {
    e.0 == i && (e.1 matches ClassExpressionV::IntersectionOf(cs) && cs.contains(c))
}

/// One of the first `k` entries is an intersection on `i` holding `c`.
pub open spec fn inter_done(pv: Seq<(Seq<char>, ClassExpressionV)>, k: int, i: Seq<char>, c: ClassExpressionV) -> bool {
    exists|q: int| 0 <= q < k && #[trigger] inter_entry(pv[q], i, c)
}

/// Entry `e` of a label list is `AllValuesFrom(p, c)` on a node with a `p`
/// edge to `i` in `g`.
pub open spec fn univ_entry(e: (Seq<char>, ClassExpressionV), g: DlCompletionGraph, i: Seq<char>, c: ClassExpressionV) -> bool {
    e.1 matches ClassExpressionV::AllValuesFrom(p, bc) && *bc == c && g.linked(e.0, p, i)
}

/// One of the first `k` entries is such an `AllValuesFrom`.
pub open spec fn univ_done(pv: Seq<(Seq<char>, ClassExpressionV)>, g: DlCompletionGraph, k: int, i: Seq<char>, c: ClassExpressionV) -> bool {
    exists|q: int| 0 <= q < k && #[trigger] univ_entry(pv[q], g, i, c)
}

/// One of the first `k` entries is an `AllValuesFrom` reaching `i`.
pub open spec fn univ_any(pv: Seq<(Seq<char>, ClassExpressionV)>, g: DlCompletionGraph, k: int, i: Seq<char>) -> bool {
    exists|c: ClassExpressionV| #[trigger] univ_done(pv, g, k, i, c)
}

/// Statement `a` labels `i` with `c`.
pub open spec fn axiom_label(a: DlAxiomV, i: Seq<char>, c: ClassExpressionV) -> bool {
    match a {
        DlAxiomV::ClassAssertion(x, j) => x == c && j == i,
        DlAxiomV::OwlLite(LiteAxiomV::ClassAssertion(x, j)) => lite_class_ce(x) == c && j == i,
        _ => false,
    }
}

/// Statement `a` gives `i` a `p` edge to `j`.
pub open spec fn axiom_link(a: DlAxiomV, i: Seq<char>, p: PropertyExpressionV, j: Seq<char>) -> bool {
    match a {
        DlAxiomV::ObjectPropertyAssertion(x, s, t) => x == p && s == i && t == j,
        DlAxiomV::OwlLite(LiteAxiomV::ObjectPropertyAssertion(x, s, t)) => lite_property_pe(x) == p && s == i && t == j,
        _ => false,
    }
}

/// The individuals a statement makes the same, in order.
pub open spec fn same_list(a: DlAxiomV) -> Seq<Seq<char>> {
    match a {
        DlAxiomV::SameIndividual(is) => is,
        DlAxiomV::OwlLite(LiteAxiomV::SameIndividual(is)) => is,
        _ => Seq::empty(),
    }
}

/// The individuals a statement makes pairwise different.
pub open spec fn different_list(a: DlAxiomV) -> Seq<Seq<char>> {
    match a {
        DlAxiomV::DifferentIndividuals(is) => is,
        DlAxiomV::OwlLite(LiteAxiomV::DifferentIndividuals(is)) => is,
        _ => Seq::empty(),
    }
}

/// `x` and `y` stand next to each other in a list of same individuals.
pub open spec fn axiom_same_pair(a: DlAxiomV, x: Seq<char>, y: Seq<char>) -> bool {
    exists|w: int| 0 <= w && w + 1 < same_list(a).len() && #[trigger] same_list(a)[w] == x && same_list(a)[w + 1] == y
}

/// `x` and `y` are two members of a list of different individuals.
pub open spec fn axiom_different(a: DlAxiomV, x: Seq<char>, y: Seq<char>) -> bool {
    different_list(a).contains(x) && different_list(a).contains(y) && x != y
}

/// One of the first `n` statements labels `i` with `c`.
pub open spec fn label_upto(axs: Seq<DlAxiomV>, n: int, i: Seq<char>, c: ClassExpressionV) -> bool {
    exists|q: int| 0 <= q < n && #[trigger] axiom_label(axs[q], i, c)
}

/// One of the first `n` statements gives `i` a `p` edge to `j`.
pub open spec fn link_upto(axs: Seq<DlAxiomV>, n: int, i: Seq<char>, p: PropertyExpressionV, j: Seq<char>) -> bool {
    exists|q: int| 0 <= q < n && #[trigger] axiom_link(axs[q], i, p, j)
}

/// One of the first `n` statements makes `x` and `y` the same.
pub open spec fn same_upto(axs: Seq<DlAxiomV>, n: int, x: Seq<char>, y: Seq<char>) -> bool {
    exists|q: int| 0 <= q < n && #[trigger] axiom_same_pair(axs[q], x, y)
}

/// One of the first `n` statements makes `x` and `y` different.
pub open spec fn different_upto(axs: Seq<DlAxiomV>, n: int, x: Seq<char>, y: Seq<char>) -> bool {
    exists|q: int| 0 <= q < n && #[trigger] axiom_different(axs[q], x, y)
}

/// A statement labels `i` with `c`.
pub open spec fn stated_label(axs: Seq<DlAxiomV>, i: Seq<char>, c: ClassExpressionV) -> bool {
    label_upto(axs, axs.len() as int, i, c)
}

/// A statement gives `i` a `p` edge to `j`.
pub open spec fn stated_link(axs: Seq<DlAxiomV>, i: Seq<char>, p: PropertyExpressionV, j: Seq<char>) -> bool {
    link_upto(axs, axs.len() as int, i, p, j)
}

/// A statement lists `a` right before `b` among same individuals.
pub open spec fn stated_same(axs: Seq<DlAxiomV>, a: Seq<char>, b: Seq<char>) -> bool {
    same_upto(axs, axs.len() as int, a, b)
}

/// A statement lists `a` and `b`, not equal, among different individuals.
pub open spec fn stated_different(axs: Seq<DlAxiomV>, a: Seq<char>, b: Seq<char>) -> bool {
    different_upto(axs, axs.len() as int, a, b)
}

/// A label that the statements or the expansion rules give `i` in `g`:
/// stated; a member of an intersection on `i`; the class of a universal
/// or existential restriction, or of a minimum cardinality, on a node with
/// an edge to `i`; or a label of an individual that is the same as `i`.
pub open spec fn label_justified(g: DlCompletionGraph, axs: Seq<DlAxiomV>, i: Seq<char>, c: ClassExpressionV) -> bool {
    ||| stated_label(axs, i, c)
    ||| intersection_part(g, i, c)
    ||| universal_part(g, i, c)
    ||| exists|j: Seq<char>, p: PropertyExpressionV|
        #[trigger] g.labeled(j, ClassExpressionV::SomeValuesFrom(p, Box::new(c))) && #[trigger] g.linked(j, p, i)
    ||| exists|j: Seq<char>, n: u32, p: PropertyExpressionV|
        #[trigger] g.labeled(j, ClassExpressionV::MinCardinality(n, p, Some(Box::new(c)))) && #[trigger] g.linked(j, p, i)
    ||| exists|s: Seq<char>| s != i && #[trigger] g.same(s, i) && #[trigger] g.labeled(s, c)
}

/// An edge that the statements or the expansion rules give in `g`:
/// stated; from an existential restriction to the individual named after
/// its node; from a minimum cardinality to one of the individuals named
/// after its node and a count below it; or an edge of an individual that is
/// the same as `i`.
pub open spec fn link_justified(g: DlCompletionGraph, axs: Seq<DlAxiomV>, i: Seq<char>, p: PropertyExpressionV, j: Seq<char>) -> bool {
    ||| stated_link(axs, i, p, j)
    ||| (j == "anon_"@ + i && exists|c: ClassExpressionV| #[trigger] g.labeled(i, ClassExpressionV::SomeValuesFrom(p, Box::new(c))))
    ||| exists|n: u32, c: ClassExpressionV, k: nat|
        #[trigger] g.labeled(i, ClassExpressionV::MinCardinality(n, p, Some(Box::new(c)))) && k < n && #[trigger] min_fresh_name(i, k) == j
    ||| exists|s: Seq<char>| s != i && #[trigger] g.same(s, i) && #[trigger] g.linked(s, p, j)
}

/// Everything in `g` comes from the ontology with statements `axs` and
/// individuals `inds`: each node is an individual of it or has a label,
/// each label and edge is justified, and the different individuals are the
/// stated ones.
pub open spec fn derived_from(g: DlCompletionGraph, axs: Seq<DlAxiomV>, inds: Seq<Seq<char>>) -> bool {
    &&& forall|i: Seq<char>| #[trigger] g.has_node(i) ==> inds.contains(i) || exists|c: ClassExpressionV| #[trigger] g.labeled(i, c)
    &&& forall|i: Seq<char>, c: ClassExpressionV| #[trigger] g.labeled(i, c) ==> label_justified(g, axs, i, c)
    &&& forall|i: Seq<char>, p: PropertyExpressionV, j: Seq<char>| #[trigger] g.linked(i, p, j) ==> link_justified(g, axs, i, p, j)
    &&& forall|a: Seq<char>, b: Seq<char>| #[trigger] g.different(a, b) <==> stated_different(axs, a, b)
}

/// Justifications survive growth that keeps sameness.
proof fn lemma_justified_mono(g1: DlCompletionGraph, g2: DlCompletionGraph, axs: Seq<DlAxiomV>)
    requires
        g2.extends(g1),
        forall|a: Seq<char>, b: Seq<char>| g2.same(a, b) == g1.same(a, b),
    ensures
        forall|i: Seq<char>, c: ClassExpressionV| label_justified(g1, axs, i, c) ==> #[trigger] label_justified(g2, axs, i, c),
        forall|i: Seq<char>, p: PropertyExpressionV, j: Seq<char>| link_justified(g1, axs, i, p, j) ==> #[trigger] link_justified(g2, axs, i, p, j),
{
    assert forall|i: Seq<char>, c: ClassExpressionV| label_justified(g1, axs, i, c) implies #[trigger] label_justified(g2, axs, i, c) by {
        if stated_label(axs, i, c) {
        } else if intersection_part(g1, i, c) {
            let cs = choose|cs: Seq<ClassExpressionV>| #[trigger] g1.labeled(i, ClassExpressionV::IntersectionOf(cs)) && cs.contains(c);
            assert(g2.labeled(i, ClassExpressionV::IntersectionOf(cs)));
        } else if universal_part(g1, i, c) {
            let (j, p) = choose|j: Seq<char>, p: PropertyExpressionV| #[trigger] g1.labeled(j, ClassExpressionV::AllValuesFrom(p, Box::new(c))) && g1.linked(j, p, i);
            assert(g2.labeled(j, ClassExpressionV::AllValuesFrom(p, Box::new(c))) && g2.linked(j, p, i));
        } else if exists|j: Seq<char>, p: PropertyExpressionV|
            #[trigger] g1.labeled(j, ClassExpressionV::SomeValuesFrom(p, Box::new(c))) && #[trigger] g1.linked(j, p, i) {
            let (j, p) = choose|j: Seq<char>, p: PropertyExpressionV|
                #[trigger] g1.labeled(j, ClassExpressionV::SomeValuesFrom(p, Box::new(c))) && #[trigger] g1.linked(j, p, i);
            assert(g2.labeled(j, ClassExpressionV::SomeValuesFrom(p, Box::new(c))) && g2.linked(j, p, i));
        } else if exists|j: Seq<char>, n: u32, p: PropertyExpressionV|
            #[trigger] g1.labeled(j, ClassExpressionV::MinCardinality(n, p, Some(Box::new(c)))) && #[trigger] g1.linked(j, p, i) {
            let (j, n, p) = choose|j: Seq<char>, n: u32, p: PropertyExpressionV|
                #[trigger] g1.labeled(j, ClassExpressionV::MinCardinality(n, p, Some(Box::new(c)))) && #[trigger] g1.linked(j, p, i);
            assert(g2.labeled(j, ClassExpressionV::MinCardinality(n, p, Some(Box::new(c)))) && g2.linked(j, p, i));
        } else {
            let s = choose|s: Seq<char>| s != i && #[trigger] g1.same(s, i) && #[trigger] g1.labeled(s, c);
            assert(g2.same(s, i) && g2.labeled(s, c));
        }
    }
    assert forall|i: Seq<char>, p: PropertyExpressionV, j: Seq<char>| link_justified(g1, axs, i, p, j) implies #[trigger] link_justified(g2, axs, i, p, j) by {
        if stated_link(axs, i, p, j) {
        } else if j == "anon_"@ + i && exists|c: ClassExpressionV| #[trigger] g1.labeled(i, ClassExpressionV::SomeValuesFrom(p, Box::new(c))) {
            let c = choose|c: ClassExpressionV| #[trigger] g1.labeled(i, ClassExpressionV::SomeValuesFrom(p, Box::new(c)));
            assert(g2.labeled(i, ClassExpressionV::SomeValuesFrom(p, Box::new(c))));
        } else if exists|n: u32, c: ClassExpressionV, k: nat|
            #[trigger] g1.labeled(i, ClassExpressionV::MinCardinality(n, p, Some(Box::new(c)))) && k < n && #[trigger] min_fresh_name(i, k) == j {
            let (n, c, k) = choose|n: u32, c: ClassExpressionV, k: nat|
                #[trigger] g1.labeled(i, ClassExpressionV::MinCardinality(n, p, Some(Box::new(c)))) && k < n && #[trigger] min_fresh_name(i, k) == j;
            assert(g2.labeled(i, ClassExpressionV::MinCardinality(n, p, Some(Box::new(c)))));
        } else {
            let s = choose|s: Seq<char>| s != i && #[trigger] g1.same(s, i) && #[trigger] g1.linked(s, p, j);
            assert(g2.same(s, i) && g2.linked(s, p, j));
        }
    }
}

/// One step of growth keeps a graph derived from the ontology when what it
/// adds is justified in the new graph.
proof fn lemma_derived_step(g1: DlCompletionGraph, g2: DlCompletionGraph, axs: Seq<DlAxiomV>, inds: Seq<Seq<char>>)
    requires
        derived_from(g1, axs, inds),
        g2.extends(g1),
        forall|a: Seq<char>, b: Seq<char>| g2.same(a, b) == g1.same(a, b),
        forall|a: Seq<char>, b: Seq<char>| g2.different(a, b) == g1.different(a, b),
        forall|i: Seq<char>, c: ClassExpressionV| #[trigger] g2.labeled(i, c) && !g1.labeled(i, c) ==> label_justified(g2, axs, i, c),
        forall|i: Seq<char>, p: PropertyExpressionV, j: Seq<char>| #[trigger] g2.linked(i, p, j) && !g1.linked(i, p, j) ==> link_justified(g2, axs, i, p, j),
        forall|i: Seq<char>| #[trigger] g2.has_node(i) && !g1.has_node(i) ==> exists|c: ClassExpressionV| #[trigger] g2.labeled(i, c),
    ensures
        derived_from(g2, axs, inds),
{
    lemma_justified_mono(g1, g2, axs);
    assert forall|i: Seq<char>| #[trigger] g2.has_node(i) implies inds.contains(i) || exists|c: ClassExpressionV| #[trigger] g2.labeled(i, c) by {
        if g1.has_node(i) && !inds.contains(i) {
            let c = choose|c: ClassExpressionV| #[trigger] g1.labeled(i, c);
            assert(g2.labeled(i, c));
        }
    }
    assert forall|i: Seq<char>, c: ClassExpressionV| #[trigger] g2.labeled(i, c) implies label_justified(g2, axs, i, c) by {
        if g1.labeled(i, c) {
            assert(label_justified(g1, axs, i, c));
        }
    }
    assert forall|i: Seq<char>, p: PropertyExpressionV, j: Seq<char>| #[trigger] g2.linked(i, p, j) implies link_justified(g2, axs, i, p, j) by {
        if g1.linked(i, p, j) {
            assert(link_justified(g1, axs, i, p, j));
        }
    }
}

/// The intersection and universal parts of a graph remain parts of every
/// graph that extends it.
proof fn lemma_parts_mono(g1: DlCompletionGraph, g2: DlCompletionGraph)
    requires
        g2.extends(g1),
    ensures
        forall|i: Seq<char>, c: ClassExpressionV| intersection_part(g1, i, c) ==> #[trigger] intersection_part(g2, i, c),
        forall|i: Seq<char>, c: ClassExpressionV| universal_part(g1, i, c) ==> #[trigger] universal_part(g2, i, c),
{
    assert forall|i: Seq<char>, c: ClassExpressionV| intersection_part(g1, i, c) implies #[trigger] intersection_part(g2, i, c) by {
        let cs = choose|cs: Seq<ClassExpressionV>| #[trigger] g1.labeled(i, ClassExpressionV::IntersectionOf(cs)) && cs.contains(c);
        assert(g2.labeled(i, ClassExpressionV::IntersectionOf(cs)));
    }
    assert forall|i: Seq<char>, c: ClassExpressionV| universal_part(g1, i, c) implies #[trigger] universal_part(g2, i, c) by {
        let (j, p) = choose|j: Seq<char>, p: PropertyExpressionV| #[trigger] g1.labeled(j, ClassExpressionV::AllValuesFrom(p, Box::new(c))) && g1.linked(j, p, i);
        assert(g2.labeled(j, ClassExpressionV::AllValuesFrom(p, Box::new(c))) && g2.linked(j, p, i));
    }
}

/// What the existential rule adds is justified in the new graph.
proof fn lemma_ex_justified(g1: DlCompletionGraph, g2: DlCompletionGraph, axs: Seq<DlAxiomV>)
    requires
        ex_growth(g2, g1),
        g2.extends(g1),
    ensures
        forall|i: Seq<char>, c: ClassExpressionV| #[trigger] g2.labeled(i, c) && !g1.labeled(i, c) ==> label_justified(g2, axs, i, c),
        forall|i: Seq<char>, p: PropertyExpressionV, j: Seq<char>| #[trigger] g2.linked(i, p, j) && !g1.linked(i, p, j) ==> link_justified(g2, axs, i, p, j),
{
    assert forall|i: Seq<char>, c: ClassExpressionV| #[trigger] g2.labeled(i, c) && !g1.labeled(i, c) implies label_justified(g2, axs, i, c) by {
        let (j, p) = choose|j: Seq<char>, p: PropertyExpressionV|
            #[trigger] g1.labeled(j, ClassExpressionV::SomeValuesFrom(p, Box::new(c))) && #[trigger] g2.linked(j, p, i);
        assert(g2.labeled(j, ClassExpressionV::SomeValuesFrom(p, Box::new(c))));
    }
    assert forall|i: Seq<char>, p: PropertyExpressionV, j: Seq<char>| #[trigger] g2.linked(i, p, j) && !g1.linked(i, p, j) implies link_justified(g2, axs, i, p, j) by {
        let c = choose|c: ClassExpressionV| #[trigger] g1.labeled(i, ClassExpressionV::SomeValuesFrom(p, Box::new(c)));
        assert(g2.labeled(i, ClassExpressionV::SomeValuesFrom(p, Box::new(c))));
    }
}

/// What the cardinality rule adds is justified in the new graph.
proof fn lemma_min_justified(g1: DlCompletionGraph, g2: DlCompletionGraph, axs: Seq<DlAxiomV>)
    requires
        min_growth(g2, g1),
        g2.extends(g1),
    ensures
        forall|i: Seq<char>, c: ClassExpressionV| #[trigger] g2.labeled(i, c) && !g1.labeled(i, c) ==> label_justified(g2, axs, i, c),
        forall|i: Seq<char>, p: PropertyExpressionV, j: Seq<char>| #[trigger] g2.linked(i, p, j) && !g1.linked(i, p, j) ==> link_justified(g2, axs, i, p, j),
{
    assert forall|i: Seq<char>, c: ClassExpressionV| #[trigger] g2.labeled(i, c) && !g1.labeled(i, c) implies label_justified(g2, axs, i, c) by {
        let (j, n, p) = choose|j: Seq<char>, n: u32, p: PropertyExpressionV|
            #[trigger] g1.labeled(j, ClassExpressionV::MinCardinality(n, p, Some(Box::new(c)))) && #[trigger] g2.linked(j, p, i);
        assert(g2.labeled(j, ClassExpressionV::MinCardinality(n, p, Some(Box::new(c)))));
    }
    assert forall|i: Seq<char>, p: PropertyExpressionV, j: Seq<char>| #[trigger] g2.linked(i, p, j) && !g1.linked(i, p, j) implies link_justified(g2, axs, i, p, j) by {
        let (n, c, k) = choose|n: u32, c: ClassExpressionV, k: nat|
            #[trigger] g1.labeled(i, ClassExpressionV::MinCardinality(n, p, Some(Box::new(c)))) && k < n && #[trigger] min_fresh_name(i, k) == j;
        assert(g2.labeled(i, ClassExpressionV::MinCardinality(n, p, Some(Box::new(c)))));
    }
}

/// What copying between same individuals adds is justified in the new
/// graph.
proof fn lemma_same_justified(g1: DlCompletionGraph, g2: DlCompletionGraph, axs: Seq<DlAxiomV>)
    requires
        same_growth(g2, g1),
    ensures
        forall|i: Seq<char>, c: ClassExpressionV| #[trigger] g2.labeled(i, c) && !g1.labeled(i, c) ==> label_justified(g2, axs, i, c),
        forall|i: Seq<char>, p: PropertyExpressionV, j: Seq<char>| #[trigger] g2.linked(i, p, j) && !g1.linked(i, p, j) ==> link_justified(g2, axs, i, p, j),
{
    assert forall|i: Seq<char>, c: ClassExpressionV| #[trigger] g2.labeled(i, c) && !g1.labeled(i, c) implies label_justified(g2, axs, i, c) by {
        let s = choose|s: Seq<char>| s != i && #[trigger] g1.same(s, i) && #[trigger] g2.labeled(s, c);
        assert(g2.same(s, i));
    }
    assert forall|i: Seq<char>, p: PropertyExpressionV, j: Seq<char>| #[trigger] g2.linked(i, p, j) && !g1.linked(i, p, j) implies link_justified(g2, axs, i, p, j) by {
        let s = choose|s: Seq<char>| s != i && #[trigger] g1.same(s, i) && #[trigger] g2.linked(s, p, j);
        assert(g2.same(s, i));
    }
}

/// The graph that the statements of `o` give before any rule runs: a node
/// for each individual (and for labelled ones), exactly the stated labels,
/// edges and different individuals, and the stated sameness.
pub open spec fn start_graph(g: DlCompletionGraph, axs: Seq<DlAxiomV>, inds: Seq<Seq<char>>) -> bool {
    &&& g.wf()
    &&& forall|i: Seq<char>| inds.contains(i) ==> #[trigger] g.has_node(i)
    &&& forall|i: Seq<char>| #[trigger] g.has_node(i) ==> inds.contains(i) || exists|c: ClassExpressionV| #[trigger] g.labeled(i, c)
    &&& forall|i: Seq<char>, c: ClassExpressionV| #[trigger] g.labeled(i, c) <==> stated_label(axs, i, c)
    &&& forall|i: Seq<char>, p: PropertyExpressionV, j: Seq<char>| #[trigger] g.linked(i, p, j) <==> stated_link(axs, i, p, j)
    &&& forall|a: Seq<char>, b: Seq<char>| #[trigger] g.different(a, b) <==> stated_different(axs, a, b)
    &&& forall|a: Seq<char>, b: Seq<char>| #[trigger] stated_same(axs, a, b) ==> g.same(a, b)
    &&& same_within(g, same_members(axs))
}

/// One run of the intersection rule from `g` gives `g2`, reporting `c`.
pub open spec fn intersection_step(g: DlCompletionGraph, g2: DlCompletionGraph, c: bool) -> bool {
    &&& g2.wf()
    &&& forall|i: Seq<char>| g2.has_node(i) == g.has_node(i)
    &&& forall|i: Seq<char>, x: ClassExpressionV| g2.labeled(i, x) <==> (g.labeled(i, x) || intersection_part(g, i, x))
    &&& forall|i: Seq<char>, p: PropertyExpressionV, j: Seq<char>| g2.linked(i, p, j) == g.linked(i, p, j)
    &&& forall|a: Seq<char>, b: Seq<char>| g2.same(a, b) == g.same(a, b)
    &&& forall|a: Seq<char>, b: Seq<char>| g2.different(a, b) == g.different(a, b)
    &&& c == gained_label(g2, g)
}

/// One run of the existential rule from `g` gives `g2`, reporting `c`.
pub open spec fn existential_step(g: DlCompletionGraph, g2: DlCompletionGraph, c: bool) -> bool {
    &&& g2.wf()
    &&& g2.extends(g)
    &&& ex_growth(g2, g)
    &&& (!c ==> g2.same_relations(g) && ex_closed(g))
    &&& (c ==> grew(g2, g))
}

/// One run of the universal rule from `g` gives `g2`, reporting `c`.
pub open spec fn universal_step(g: DlCompletionGraph, g2: DlCompletionGraph, c: bool) -> bool {
    &&& g2.wf()
    &&& forall|i: Seq<char>| g2.has_node(i) <==> (g.has_node(i) || exists|x: ClassExpressionV| #[trigger] universal_part(g, i, x))
    &&& forall|i: Seq<char>, x: ClassExpressionV| g2.labeled(i, x) <==> (g.labeled(i, x) || universal_part(g, i, x))
    &&& forall|i: Seq<char>, p: PropertyExpressionV, j: Seq<char>| g2.linked(i, p, j) == g.linked(i, p, j)
    &&& forall|a: Seq<char>, b: Seq<char>| g2.same(a, b) == g.same(a, b)
    &&& forall|a: Seq<char>, b: Seq<char>| g2.different(a, b) == g.different(a, b)
    &&& c == gained_label(g2, g)
}

/// One run of the rules on same individuals from `g` gives `g2`, reporting
/// `c`.
pub open spec fn individual_step(g: DlCompletionGraph, g2: DlCompletionGraph, c: bool) -> bool {
    &&& g2.wf()
    &&& g2.extends(g)
    &&& same_growth(g2, g)
    &&& (!c ==> g2.same_relations(g))
    &&& (c ==> grew(g2, g) || relinks_same(g))
}

/// One run of the cardinality rule from `g` gives `g2`, reporting `c`.
pub open spec fn cardinality_step(g: DlCompletionGraph, g2: DlCompletionGraph, c: bool) -> bool {
    &&& g2.wf()
    &&& g2.extends(g)
    &&& min_growth(g2, g)
    &&& (!c ==> g2.same_relations(g) && min_closed(g))
    &&& (c ==> !min_closed(g))
}

/// One round of the expansion rules from `g` gives `g2`; `changed` is
/// whether some rule reported a change.
pub open spec fn round_step(g: DlCompletionGraph, g2: DlCompletionGraph, changed: bool) -> bool {
    exists|s1: DlCompletionGraph, s2: DlCompletionGraph, s3: DlCompletionGraph, s4: DlCompletionGraph,
        c1: bool, c2: bool, c3: bool, c4: bool, c5: bool|
        #[trigger] intersection_step(g, s1, c1) && #[trigger] existential_step(s1, s2, c2) && #[trigger] universal_step(s2, s3, c3)
        && #[trigger] individual_step(s3, s4, c4) && #[trigger] cardinality_step(s4, g2, c5)
        && changed == (c1 || c2 || c3 || c4 || c5)
}

/// The expansion from `g` gave up: `gs` is a run of ten thousand rounds
/// from the start graph, each but the last reporting a change.
pub open spec fn gave_up(gs: Seq<DlCompletionGraph>, axs: Seq<DlAxiomV>, inds: Seq<Seq<char>>) -> bool {
    &&& gs.len() == 10001
    &&& start_graph(gs[0], axs, inds)
    &&& forall|k: int| 0 <= k < 9999 ==> #[trigger] round_step(gs[k], gs[k + 1], true)
    &&& exists|c: bool| round_step(gs[9999], gs[10000], c)
}

/// A label that no expansion rule acts on.
pub open spec fn inert_label(x: ClassExpressionV) -> bool {
    !(x is IntersectionOf || x is AllValuesFrom || x is SomeValuesFrom || x is MinCardinality)
}

/// A graph whose labels no rule acts on and that holds no two individuals
/// the same cannot go through a round that reports a change.
pub proof fn law_inert_round_unchanged(g: DlCompletionGraph, g2: DlCompletionGraph)
    requires
        forall|i: Seq<char>, x: ClassExpressionV| #[trigger] g.labeled(i, x) ==> inert_label(x),
        forall|a: Seq<char>, b: Seq<char>| !#[trigger] g.same(a, b),
    ensures
        !round_step(g, g2, true),
{
    if round_step(g, g2, true) {
        let (s1, s2, s3, s4, c1, c2, c3, c4, c5) = choose|s1: DlCompletionGraph, s2: DlCompletionGraph, s3: DlCompletionGraph, s4: DlCompletionGraph,
            c1: bool, c2: bool, c3: bool, c4: bool, c5: bool|
            #[trigger] intersection_step(g, s1, c1) && #[trigger] existential_step(s1, s2, c2) && #[trigger] universal_step(s2, s3, c3)
            && #[trigger] individual_step(s3, s4, c4) && #[trigger] cardinality_step(s4, g2, c5)
            && true == (c1 || c2 || c3 || c4 || c5);
        assert forall|i: Seq<char>, x: ClassExpressionV| !intersection_part(g, i, x) by {
            if intersection_part(g, i, x) {
                let cs = choose|cs: Seq<ClassExpressionV>| #[trigger] g.labeled(i, ClassExpressionV::IntersectionOf(cs)) && cs.contains(x);
                assert(inert_label(ClassExpressionV::IntersectionOf(cs)));
            }
        }
        assert(!c1);
        assert forall|i: Seq<char>, x: ClassExpressionV| s1.labeled(i, x) == g.labeled(i, x) by {}
        if c2 {
            if exists|i: Seq<char>, x: ClassExpressionV| #[trigger] s2.labeled(i, x) && !s1.labeled(i, x) {
                let (i, x) = choose|i: Seq<char>, x: ClassExpressionV| #[trigger] s2.labeled(i, x) && !s1.labeled(i, x);
                let (j, p) = choose|j: Seq<char>, p: PropertyExpressionV|
                    #[trigger] s1.labeled(j, ClassExpressionV::SomeValuesFrom(p, Box::new(x))) && #[trigger] s2.linked(j, p, i);
                assert(inert_label(ClassExpressionV::SomeValuesFrom(p, Box::new(x))));
            } else {
                let (i, p, j) = choose|i: Seq<char>, p: PropertyExpressionV, j: Seq<char>| #[trigger] s2.linked(i, p, j) && !s1.linked(i, p, j);
                let x = choose|x: ClassExpressionV| #[trigger] s1.labeled(i, ClassExpressionV::SomeValuesFrom(p, Box::new(x)));
                assert(inert_label(ClassExpressionV::SomeValuesFrom(p, Box::new(x))));
            }
        }
        assert forall|i: Seq<char>, x: ClassExpressionV| s2.labeled(i, x) == g.labeled(i, x) by {}
        assert forall|a: Seq<char>, b: Seq<char>| !s2.same(a, b) by {}
        assert forall|i: Seq<char>, x: ClassExpressionV| !universal_part(s2, i, x) by {
            if universal_part(s2, i, x) {
                let (j, p) = choose|j: Seq<char>, p: PropertyExpressionV| #[trigger] s2.labeled(j, ClassExpressionV::AllValuesFrom(p, Box::new(x))) && s2.linked(j, p, i);
                assert(inert_label(ClassExpressionV::AllValuesFrom(p, Box::new(x))));
            }
        }
        assert(!c3);
        assert forall|i: Seq<char>, x: ClassExpressionV| s3.labeled(i, x) == g.labeled(i, x) by {}
        assert forall|a: Seq<char>, b: Seq<char>| !s3.same(a, b) by {}
        if c4 {
            if relinks_same(s3) {
                let (a, b, p, j) = choose|a: Seq<char>, b: Seq<char>, p: PropertyExpressionV, j: Seq<char>|
                    a != b && #[trigger] s3.same(a, b) && #[trigger] s3.linked(a, p, j);
            } else if exists|i: Seq<char>, x: ClassExpressionV| #[trigger] s4.labeled(i, x) && !s3.labeled(i, x) {
                let (i, x) = choose|i: Seq<char>, x: ClassExpressionV| #[trigger] s4.labeled(i, x) && !s3.labeled(i, x);
                let sx = choose|sx: Seq<char>| sx != i && #[trigger] s3.same(sx, i) && #[trigger] s4.labeled(sx, x);
            } else {
                let (i, p, j) = choose|i: Seq<char>, p: PropertyExpressionV, j: Seq<char>| #[trigger] s4.linked(i, p, j) && !s3.linked(i, p, j);
                let sx = choose|sx: Seq<char>| sx != i && #[trigger] s3.same(sx, i) && #[trigger] s4.linked(sx, p, j);
            }
        }
        assert forall|i: Seq<char>, x: ClassExpressionV| s4.labeled(i, x) == g.labeled(i, x) by {}
        if c5 {
            assert forall|i: Seq<char>, x: ClassExpressionV| #[trigger] s4.labeled(i, x) implies min_entry_ok(s4, i, x) by {
                assert(inert_label(x));
            }
        }
    }
}

/// An ontology whose stated labels no rule acts on and that states no
/// individuals to be the same is never given up on: its consistency check
/// owes a verdict.
pub proof fn law_inert_ontology_decided(gs: Seq<DlCompletionGraph>, axs: Seq<DlAxiomV>, inds: Seq<Seq<char>>)
    requires
        forall|i: Seq<char>, x: ClassExpressionV| #[trigger] stated_label(axs, i, x) ==> inert_label(x),
        same_members(axs) == Set::<Seq<char>>::empty(),
    ensures
        !gave_up(gs, axs, inds),
{
    if gave_up(gs, axs, inds) {
        let g = gs[0];
        assert forall|a: Seq<char>, b: Seq<char>| !#[trigger] g.same(a, b) by {
            if g.same(a, b) {
                assert(same_members(axs).contains(a));
            }
        }
        assert forall|i: Seq<char>, x: ClassExpressionV| #[trigger] g.labeled(i, x) implies inert_label(x) by {
            assert(stated_label(axs, i, x));
        }
        law_inert_round_unchanged(g, gs[1]);
        assert(round_step(gs[0int], gs[0int + 1], true));
    }
}

proof fn lemma_extends_trans(a: DlCompletionGraph, b: DlCompletionGraph, c: DlCompletionGraph)
    requires
        b.extends(a),
        c.extends(b),
    ensures
        c.extends(a),
{
}

proof fn lemma_round(g: DlCompletionGraph, s1: DlCompletionGraph, s2: DlCompletionGraph, s3: DlCompletionGraph, s4: DlCompletionGraph,
    g2: DlCompletionGraph, c1: bool, c2: bool, c3: bool, c4: bool, c5: bool)
    requires
        intersection_step(g, s1, c1),
        existential_step(s1, s2, c2),
        universal_step(s2, s3, c3),
        individual_step(s3, s4, c4),
        cardinality_step(s4, g2, c5),
    ensures
        round_step(g, g2, c1 || c2 || c3 || c4 || c5),
{
}

/// Tableau reasoner for OWL DL.
#[derive(Debug)]
pub struct DlTableauReasoner {
    graph: DlCompletionGraph,
}

impl DlTableauReasoner {
    /// The completion graph of the last consistency check.
    pub closed spec fn completion(&self) -> DlCompletionGraph {
        self.graph
    }

    pub closed spec fn wf(&self) -> bool {
        self.graph.wf()
    }

    /// A reasoner with an empty completion graph.
    pub fn new() -> (r: Self)
        ensures
            r.wf(),
            forall|i: Seq<char>| !r.completion().has_node(i),
            forall|i: Seq<char>, c: ClassExpressionV| !r.completion().labeled(i, c),
            forall|i: Seq<char>, p: PropertyExpressionV, j: Seq<char>| !r.completion().linked(i, p, j),
            forall|a: Seq<char>, b: Seq<char>| !r.completion().same(a, b),
            forall|a: Seq<char>, b: Seq<char>| !r.completion().different(a, b),
    {
        DlTableauReasoner { graph: DlCompletionGraph::new() }
    }

    /// Whether the ontology is consistent: the graph starts empty, the
    /// ontology's individuals get nodes, its class, property, same and
    /// different assertions are applied, and the
    /// expansion rules run until nothing changes; then the graph is checked
    /// for a clash. Rounds are capped at ten thousand.
    pub fn is_consistent(&mut self, ontology: &OwlDlOntology) -> (r: Result<bool, OwlDlError>)
        requires
            old(self).wf(),
        ensures
            final(self).wf(),
            derived_from(final(self).completion(), ontology.view_of().axioms, ontology.view_of().individuals),
            forall|i: Seq<char>| ontology.view_of().individuals.contains(i) ==> #[trigger] final(self).completion().has_node(i),
            forall|i: Seq<char>, c: ClassExpressionV| #[trigger] stated_label(ontology.view_of().axioms, i, c) ==> final(self).completion().labeled(i, c),
            forall|i: Seq<char>, p: PropertyExpressionV, j: Seq<char>| #[trigger] stated_link(ontology.view_of().axioms, i, p, j) ==> final(self).completion().linked(i, p, j),
            forall|a: Seq<char>, b: Seq<char>| #[trigger] stated_same(ontology.view_of().axioms, a, b) ==> final(self).completion().same(a, b),
            forall|a: Seq<char>, b: Seq<char>| #[trigger] stated_different(ontology.view_of().axioms, a, b) ==> final(self).completion().different(a, b),
            match r {
                Ok(b) => b == !final(self).completion().has_clash() && saturated(final(self).completion()),
                Err(OwlDlError::ReasoningError(m)) => m@ == "Tableau algorithm did not terminate"@
                    && exists|gs: Seq<DlCompletionGraph>| #[trigger] gave_up(gs, ontology.view_of().axioms, ontology.view_of().individuals),
                Err(_) => false,
            },
    {
        self.graph = DlCompletionGraph::new();
        let ghost g_start = self.graph;
        let ghost axs = ontology.view_of().axioms;
        let ghost inds = ontology.view_of().individuals;
        self.graph.initialize(ontology);
        let ghost g_init = self.graph;
        proof {
            assert(same_within(g_init, same_members(axs)));
        }
        match self.apply_initial_assertions(ontology) {
            Ok(_) => {},
            Err(e) => { return Err(e); },
        }
        let ghost g1 = self.graph;
        proof {
            assert(g1.extends(g_start));
            assert forall|i: Seq<char>| #[trigger] g1.has_node(i) implies inds.contains(i) || exists|c: ClassExpressionV| #[trigger] g1.labeled(i, c) by {
                if !g_init.has_node(i) {
                    let c = choose|c: ClassExpressionV| #[trigger] g1.labeled(i, c);
                    assert(g1.labeled(i, c));
                }
            }
            assert forall|i: Seq<char>, c: ClassExpressionV| #[trigger] g1.labeled(i, c) implies label_justified(g1, axs, i, c) by {
                assert(stated_label(axs, i, c));
            }
            assert forall|i: Seq<char>, p: PropertyExpressionV, j: Seq<char>| #[trigger] g1.linked(i, p, j) implies link_justified(g1, axs, i, p, j) by {
                assert(stated_link(axs, i, p, j));
            }
            assert(derived_from(g1, axs, inds));
            assert(start_graph(g1, axs, inds));
        }
        let ghost mut chain: Seq<DlCompletionGraph> = seq![g1];

        let mut changed = true;
        let mut iteration_count: u32 = 0;
        let max_iterations: u32 = 10000;
        while changed && iteration_count < max_iterations
            invariant
                self.wf(),
                self.graph.extends(g1),
                iteration_count <= max_iterations,
                max_iterations == 10000,
                !changed ==> saturated(self.graph),
                axs == ontology.view_of().axioms,
                inds == ontology.view_of().individuals,
                derived_from(self.graph, axs, inds),
                chain.len() == iteration_count + 1,
                chain[0] == g1,
                start_graph(g1, axs, inds),
                chain.last() == self.graph,
                forall|k: int| 0 <= k < iteration_count - 1 ==> #[trigger] round_step(chain[k], chain[k + 1], true),
                iteration_count > 0 ==> round_step(chain[iteration_count - 1], chain[iteration_count as int], changed),
                iteration_count == 0 ==> changed,
            decreases max_iterations - iteration_count,
        {
            let ghost s0 = self.graph;
            let ghost old_chain = chain;
            let ghost ic = iteration_count as int;
            changed = self.run_round(ontology);
            proof {
                lemma_extends_trans(g1, s0, self.graph);
                chain = chain.push(self.graph);
                assert forall|k: int| 0 <= k <= ic implies chain[k] == old_chain[k] by {}
                assert forall|k: int| 0 <= k < ic implies #[trigger] round_step(chain[k], chain[k + 1], true) by {
                    assert(chain[k] == old_chain[k] && chain[k + 1] == old_chain[k + 1]);
                    if k < ic - 1 {
                        assert(round_step(old_chain[k], old_chain[k + 1], true));
                    }
                }
            }
            iteration_count += 1;
        }
        if iteration_count >= max_iterations {
            proof {
                assert(chain.len() == 10001);
                assert(round_step(chain[9999], chain[10000], changed));
                assert(gave_up(chain, axs, inds));
            }
            return Err(OwlDlError::ReasoningError("Tableau algorithm did not terminate".to_string()));
        }
        self.check_contradictions()
    }

    /// One round of the expansion rules: intersection, union, existential,
    /// universal, same individuals, cardinality; true when one reported a
    /// change.
    fn run_round(&mut self, ontology: &OwlDlOntology) -> (changed: bool)
        requires
            old(self).wf(),
            derived_from(old(self).completion(), ontology.view_of().axioms, ontology.view_of().individuals),
        ensures
            final(self).wf(),
            final(self).completion().extends(old(self).completion()),
            derived_from(final(self).completion(), ontology.view_of().axioms, ontology.view_of().individuals),
            round_step(old(self).completion(), final(self).completion(), changed),
            !changed ==> saturated(final(self).completion()),
    {
        let ghost axs = ontology.view_of().axioms;
        let ghost inds = ontology.view_of().individuals;
        let ghost mut c1: bool = false;
        let ghost mut c2: bool = false;
        let ghost mut c3: bool = false;
        let ghost mut c4: bool = false;
        let ghost mut c5: bool = false;
        let mut changed = false;
        let ghost s0 = self.graph;
        match self.apply_intersection_rule() {
            Ok(c) => { proof { c1 = c; } changed = changed || c; },
            Err(_) => {},
        }
        let ghost s1 = self.graph;
        proof {
            lemma_parts_mono(s0, s1);
            lemma_derived_step(s0, s1, axs, inds);
        }
        match self.apply_union_rule() {
            Ok(c) => { changed = changed || c; },
            Err(_) => {},
        }
        match self.apply_existential_rule(ontology) {
            Ok(c) => { proof { c2 = c; } changed = changed || c; },
            Err(_) => {},
        }
        let ghost s2 = self.graph;
        proof {
            lemma_ex_justified(s1, s2, axs);
            lemma_derived_step(s1, s2, axs, inds);
        }
        match self.apply_universal_rule(ontology) {
            Ok(c) => { proof { c3 = c; } changed = changed || c; },
            Err(_) => {},
        }
        let ghost s3 = self.graph;
        proof {
            lemma_parts_mono(s2, s3);
            assert forall|i: Seq<char>| #[trigger] s3.has_node(i) && !s2.has_node(i) implies exists|c: ClassExpressionV| #[trigger] s3.labeled(i, c) by {
                let c = choose|c: ClassExpressionV| #[trigger] universal_part(s2, i, c);
                assert(s3.labeled(i, c));
            }
            lemma_derived_step(s2, s3, axs, inds);
        }
        match self.apply_individual_rules() {
            Ok(c) => { proof { c4 = c; } changed = changed || c; },
            Err(_) => {},
        }
        let ghost s4 = self.graph;
        proof {
            lemma_same_justified(s3, s4, axs);
            lemma_derived_step(s3, s4, axs, inds);
        }
        match self.apply_cardinality_rules() {
            Ok(c) => { proof { c5 = c; } changed = changed || c; },
            Err(_) => {},
        }
        let ghost s5 = self.graph;
        proof {
            lemma_min_justified(s4, s5, axs);
            lemma_derived_step(s4, s5, axs, inds);
            assert(intersection_step(s0, s1, c1));
            assert(existential_step(s1, s2, c2));
            assert(universal_step(s2, s3, c3));
            assert(individual_step(s3, s4, c4));
            assert(cardinality_step(s4, s5, c5));
            assert(changed == (c1 || c2 || c3 || c4 || c5));
            lemma_round(s0, s1, s2, s3, s4, s5, c1, c2, c3, c4, c5);
        }
        proof {
            if !changed {
                lemma_same_relations_chain(s0, s1, s2, s3, s4, s5);
                lemma_closed_transfer(s0, s5);
                lemma_closed_transfer(s1, s5);
                lemma_closed_transfer(s2, s5);
                lemma_closed_transfer(s4, s5);
            }
        }
        changed
    }

    /// Apply the class, property, same and different assertions of the
    /// ontology to the graph.
    fn apply_initial_assertions(&mut self, ontology: &OwlDlOntology) -> (r: Result<bool, OwlDlError>)
        requires
            old(self).wf(),
        ensures
            final(self).wf(),
            final(self).completion().extends(old(self).completion()),
            forall|i: Seq<char>, c: ClassExpressionV| #[trigger] final(self).completion().labeled(i, c) <==> (old(self).completion().labeled(i, c)
                || stated_label(ontology.view_of().axioms, i, c)),
            forall|i: Seq<char>, p: PropertyExpressionV, j: Seq<char>| #[trigger] final(self).completion().linked(i, p, j) <==> (old(self).completion().linked(i, p, j)
                || stated_link(ontology.view_of().axioms, i, p, j)),
            forall|a: Seq<char>, b: Seq<char>| #[trigger] final(self).completion().different(a, b) <==> (old(self).completion().different(a, b)
                || stated_different(ontology.view_of().axioms, a, b)),
            forall|a: Seq<char>, b: Seq<char>| #[trigger] stated_same(ontology.view_of().axioms, a, b) ==> final(self).completion().same(a, b),
            forall|i: Seq<char>| #[trigger] final(self).completion().has_node(i) ==> old(self).completion().has_node(i)
                || exists|c: ClassExpressionV| #[trigger] final(self).completion().labeled(i, c),
            same_within(old(self).completion(), same_members(ontology.view_of().axioms))
                ==> same_within(final(self).completion(), same_members(ontology.view_of().axioms)),
            r is Ok,
    {
        let axs = &ontology.axioms;
        let ghost av = dl_axiom_views(axs@);
        let ghost g0 = self.graph;
        let mut changed = false;
        let mut k: usize = 0;
        while k < axs.len()
            invariant
                k <= axs@.len(),
                av == dl_axiom_views(axs@),
                av.len() == axs@.len(),
                self.graph.wf(),
                self.graph.extends(g0),
                forall|i: Seq<char>, c: ClassExpressionV| #[trigger] self.graph.labeled(i, c) <==> (g0.labeled(i, c) || label_upto(av, k as int, i, c)),
                forall|i: Seq<char>, p: PropertyExpressionV, j: Seq<char>| #[trigger] self.graph.linked(i, p, j) <==> (g0.linked(i, p, j) || link_upto(av, k as int, i, p, j)),
                forall|a: Seq<char>, b: Seq<char>| #[trigger] self.graph.different(a, b) <==> (g0.different(a, b) || different_upto(av, k as int, a, b)),
                forall|a: Seq<char>, b: Seq<char>| #[trigger] same_upto(av, k as int, a, b) ==> self.graph.same(a, b),
                forall|i: Seq<char>| #[trigger] self.graph.has_node(i) ==> g0.has_node(i)
                    || exists|c: ClassExpressionV| #[trigger] self.graph.labeled(i, c),
                same_within(g0, same_members(av)) ==> same_within(self.graph, same_members(av)),
            decreases axs.len() - k,
        {
            let ghost gk = self.graph;
            let ghost ak = av[k as int];
            proof {
                assert(ak == axs@[k as int].view_of());
                lemma_upto_step(av, k as int);
            }
            match &axs[k] {
                Axiom::OwlLite(LiteAxiom::ClassAssertion(class, individual)) => {
                    let expr = OwlDlOntology::owl_lite_class_to_expression(class.clone());
                    let added = self.graph.add_label(individual, expr);
                    changed = changed || added;
                },
                Axiom::OwlLite(LiteAxiom::ObjectPropertyAssertion(prop, i1, i2)) => {
                    let expr = OwlDlOntology::owl_lite_property_to_expression(prop.clone());
                    self.graph.add_property_assertion(i1, expr, i2);
                    changed = true;
                },
                Axiom::OwlLite(LiteAxiom::SameIndividual(individuals)) => {
                    proof {
                        assert forall|q: int| 0 <= q < individuals@.len() implies same_members(av).contains(#[trigger] node_views(individuals@)[q]) by {
                            assert(same_list(av[k as int]) == node_views(individuals@));
                            assert(same_list(av[k as int]).contains(node_views(individuals@)[q]));
                        }
                    }
                    let some = add_same_chain(&mut self.graph, individuals, Ghost(same_members(av)));
                    changed = changed || some;
                },
                Axiom::OwlLite(LiteAxiom::DifferentIndividuals(individuals)) => {
                    let some = add_different_all(&mut self.graph, individuals);
                    changed = changed || some;
                },
                Axiom::ClassAssertion(expr, individual) => {
                    let added = self.graph.add_label(individual, expr.copy());
                    changed = changed || added;
                },
                Axiom::ObjectPropertyAssertion(prop, i1, i2) => {
                    self.graph.add_property_assertion(i1, prop.copy(), i2);
                    changed = true;
                },
                Axiom::SameIndividual(individuals) => {
                    proof {
                        assert forall|q: int| 0 <= q < individuals@.len() implies same_members(av).contains(#[trigger] node_views(individuals@)[q]) by {
                            assert(same_list(av[k as int]) == node_views(individuals@));
                            assert(same_list(av[k as int]).contains(node_views(individuals@)[q]));
                        }
                    }
                    let some = add_same_chain(&mut self.graph, individuals, Ghost(same_members(av)));
                    changed = changed || some;
                },
                Axiom::DifferentIndividuals(individuals) => {
                    let some = add_different_all(&mut self.graph, individuals);
                    changed = changed || some;
                },
                _ => {},
            }
            proof {
                assert forall|i: Seq<char>| #[trigger] self.graph.has_node(i) implies g0.has_node(i)
                    || exists|c: ClassExpressionV| #[trigger] self.graph.labeled(i, c) by {
                    if gk.has_node(i) && !g0.has_node(i) {
                        let c = choose|c: ClassExpressionV| #[trigger] gk.labeled(i, c);
                        assert(self.graph.labeled(i, c));
                    }
                }
                assert forall|a: Seq<char>, b: Seq<char>| #[trigger] same_upto(av, k + 1, a, b) implies self.graph.same(a, b) by {
                    if same_upto(av, k as int, a, b) {
                        assert(gk.same(a, b));
                    } else {
                        let w = choose|w: int| 0 <= w && w + 1 < same_list(ak).len() && #[trigger] same_list(ak)[w] == a && same_list(ak)[w + 1] == b;
                    }
                }
            }
            k += 1;
        }
        proof {
            assert(av == ontology.view_of().axioms);
        }
        Ok(changed)
    }

    /// A clash: some individual labelled owl:Thing and owl:Nothing, or two
    /// members of one class of same individuals stated to be different.
    fn check_contradictions(&self) -> (r: Result<bool, OwlDlError>)
        requires
            self.wf(),
        ensures
            r == Ok::<bool, OwlDlError>(!self.completion().has_clash()),
    {
        let g = &self.graph;
        proof {
            assert(self.completion() == *g);
        }
        let labels = &g.individual_labels;
        let thing = ClassExpression::Thing;
        let nothing = ClassExpression::Nothing;
        let mut k: usize = 0;
        while k < labels.len()
            invariant
                k <= labels@.len(),
                labels == g.individual_labels,
                g.wf(),
                self.completion() == *g,
                ce_view(thing) == ClassExpressionV::Thing,
                ce_view(nothing) == ClassExpressionV::Nothing,
                forall|q: int| 0 <= q < k ==> !(#[trigger] node_views(labels@[q].1@).contains(ClassExpressionV::Thing)
                    && node_views(labels@[q].1@).contains(ClassExpressionV::Nothing)),
                forall|q: int| 0 <= q < k ==> !complement_pair(#[trigger] node_views(labels@[q].1@)),
            decreases labels.len() - k,
        {
            if has_complement_pair(&labels[k].1) {
                proof {
                    let i = labels@[k as int].0.node_view();
                    let lv = node_views(labels@[k as int].1@);
                    let c = choose|c: ClassExpressionV| #[trigger] lv.contains(ClassExpressionV::ComplementOf(Box::new(c))) && lv.contains(c);
                    assert(g.labeled(i, ClassExpressionV::ComplementOf(Box::new(c))));
                    assert(g.labeled(i, c));
                    assert(self.completion().labeled(i, ClassExpressionV::ComplementOf(Box::new(c))) && self.completion().labeled(i, c));
                }
                return Ok(false);
            }
            if contains_node(&labels[k].1, &thing) && contains_node(&labels[k].1, &nothing) {
                proof {
                    let i = labels@[k as int].0.node_view();
                    assert(g.labeled(i, ClassExpressionV::Thing));
                    assert(g.labeled(i, ClassExpressionV::Nothing));
                    assert(self.completion().labeled(i, ClassExpressionV::Thing) && self.completion().labeled(i, ClassExpressionV::Nothing));
                }
                return Ok(false);
            }
            k += 1;
        }
        proof {
            assert forall|i: Seq<char>| !(g.labeled(i, ClassExpressionV::Thing) && #[trigger] g.labeled(i, ClassExpressionV::Nothing)) by {
                if g.labeled(i, ClassExpressionV::Thing) && g.labeled(i, ClassExpressionV::Nothing) {
                    let k1 = choose|k1: int| 0 <= k1 < labels@.len() && labels@[k1].0.node_view() == i
                        && #[trigger] node_views(labels@[k1].1@).contains(ClassExpressionV::Thing);
                    let k2 = choose|k2: int| 0 <= k2 < labels@.len() && labels@[k2].0.node_view() == i
                        && #[trigger] node_views(labels@[k2].1@).contains(ClassExpressionV::Nothing);
                    assert(k1 == k2);
                    assert(!(node_views(labels@[k1].1@).contains(ClassExpressionV::Thing)
                        && node_views(labels@[k1].1@).contains(ClassExpressionV::Nothing)));
                }
            }
        }
        proof {
            assert forall|i: Seq<char>, c: ClassExpressionV| !(#[trigger] g.labeled(i, ClassExpressionV::ComplementOf(Box::new(c))) && g.labeled(i, c)) by {
                if g.labeled(i, ClassExpressionV::ComplementOf(Box::new(c))) && g.labeled(i, c) {
                    let k1 = choose|k1: int| 0 <= k1 < labels@.len() && labels@[k1].0.node_view() == i
                        && #[trigger] node_views(labels@[k1].1@).contains(ClassExpressionV::ComplementOf(Box::new(c)));
                    let k2 = choose|k2: int| 0 <= k2 < labels@.len() && labels@[k2].0.node_view() == i
                        && #[trigger] node_views(labels@[k2].1@).contains(c);
                    assert(k1 == k2);
                    assert(!complement_pair(node_views(labels@[k1].1@)));
                }
            }
        }
        let cs = &g.same_individuals;
        let mut q: usize = 0;
        while q < cs.len()
            invariant
                q <= cs@.len(),
                cs == g.same_individuals,
                g.wf(),
                self.completion() == *g,
                forall|z: int, i: int, j: int| 0 <= z < q && 0 <= i < j < cs@[z]@.len() ==>
                    !g.different(#[trigger] node_views(cs@[z]@)[i], #[trigger] node_views(cs@[z]@)[j]),
            decreases cs.len() - q,
        {
            let cls = &cs[q];
            let mut i: usize = 0;
            while i < cls.len()
                invariant
                    q < cs@.len(),
                    cls == cs@[q as int],
                    cs == g.same_individuals,
                    g.wf(),
                    self.completion() == *g,
                self.completion() == *g,
                    i <= cls@.len(),
                    forall|z: int, a: int, b: int| 0 <= z < q && 0 <= a < b < cs@[z]@.len() ==>
                        !g.different(#[trigger] node_views(cs@[z]@)[a], #[trigger] node_views(cs@[z]@)[b]),
                    forall|a: int, b: int| 0 <= a < i && a < b < cls@.len() ==>
                        !g.different(#[trigger] node_views(cls@)[a], #[trigger] node_views(cls@)[b]),
                decreases cls.len() - i,
            {
                let mut j: usize = i + 1;
                while j < cls.len()
                    invariant
                        q < cs@.len(),
                        cls == cs@[q as int],
                        cs == g.same_individuals,
                        g.wf(),
                        self.completion() == *g,
                    self.completion() == *g,
                self.completion() == *g,
                        i < cls@.len(),
                        i < j <= cls@.len(),
                        forall|z: int, a: int, b: int| 0 <= z < q && 0 <= a < b < cs@[z]@.len() ==>
                            !g.different(#[trigger] node_views(cs@[z]@)[a], #[trigger] node_views(cs@[z]@)[b]),
                        forall|a: int, b: int| 0 <= a < i && a < b < cls@.len() ==>
                            !g.different(#[trigger] node_views(cls@)[a], #[trigger] node_views(cls@)[b]),
                        forall|b: int| i < b < j ==> !g.different(node_views(cls@)[i as int], #[trigger] node_views(cls@)[b]),
                    decreases cls.len() - j,
                {
                    if g.are_different_individuals(&cls[i], &cls[j]) {
                        proof {
                            let nv = node_views(cls@);
                            let x = nv[i as int];
                            let y = nv[j as int];
                            assert(distinct(nv));
                            assert(x != y);
                            assert(nv.contains(x) && nv.contains(y));
                            assert(g.same(x, y));
                            assert(x != y && self.completion().same(x, y) && self.completion().different(x, y));
                        }
                        return Ok(false);
                    }
                    j += 1;
                }
                i += 1;
            }
            q += 1;
        }
        proof {
            assert forall|x: Seq<char>, y: Seq<char>| !(x != y && g.same(x, y) && #[trigger] g.different(x, y)) by {
                if x != y && g.same(x, y) && g.different(x, y) {
                    let z = choose|z: int| 0 <= z < cs@.len() && #[trigger] node_views(cs@[z]@).contains(x) && node_views(cs@[z]@).contains(y);
                    let nv = node_views(cs@[z]@);
                    let a = choose|a: int| 0 <= a < nv.len() && nv[a] == x;
                    let b = choose|b: int| 0 <= b < nv.len() && nv[b] == y;
                    if a < b {
                        assert(!g.different(nv[a], nv[b]));
                    } else {
                        assert(edge_views(g.different_individuals@).contains((x, y)));
                        assert(g.different(y, x));
                        assert(!g.different(nv[b], nv[a]));
                    }
                }
            }
        }
        Ok(true)
    }

    /// Label each individual with the members of the intersections it is
    /// labelled with; true when a label was added.
    fn apply_intersection_rule(&mut self) -> (r: Result<bool, OwlDlError>)
        requires
            old(self).wf(),
        ensures
            final(self).wf(),
            forall|i: Seq<char>| final(self).completion().has_node(i) == old(self).completion().has_node(i),
            forall|i: Seq<char>, c: ClassExpressionV| final(self).completion().labeled(i, c) <==> (old(self).completion().labeled(i, c)
                || intersection_part(old(self).completion(), i, c)),
            forall|i: Seq<char>, p: PropertyExpressionV, j: Seq<char>| final(self).completion().linked(i, p, j) == old(self).completion().linked(i, p, j),
            forall|a: Seq<char>, b: Seq<char>| final(self).completion().same(a, b) == old(self).completion().same(a, b),
            forall|a: Seq<char>, b: Seq<char>| final(self).completion().different(a, b) == old(self).completion().different(a, b),
            r == Ok::<bool, OwlDlError>(gained_label(final(self).completion(), old(self).completion())),
            r == Ok::<bool, OwlDlError>(false) ==> final(self).completion().same_relations(old(self).completion())
                && inter_closed(old(self).completion()),
    {
        let ghost g0 = self.graph;
        let pairs = hier_flatten(&self.graph.individual_labels);
        let ghost pv = edge_views(pairs@);
        proof {
            assert forall|i: Seq<char>, x: ClassExpressionV| pv.contains((i, x)) <==> g0.labeled(i, x) by {
                crate::hierarchy::lemma_hier_edges_contains(g0.individual_labels@, i, x);
            }
        }
        let mut changed = false;
        let mut k: usize = 0;
        while k < pairs.len()
            invariant
                k <= pairs@.len(),
                pv == edge_views(pairs@),
                forall|i: Seq<char>, x: ClassExpressionV| pv.contains((i, x)) <==> g0.labeled(i, x),
                g0.wf(),
                self.graph.wf(),
                forall|i: Seq<char>| self.graph.has_node(i) == g0.has_node(i),
                forall|i: Seq<char>, c: ClassExpressionV| #[trigger] self.graph.labeled(i, c) <==> (g0.labeled(i, c) || inter_done(pv, k as int, i, c)),
                forall|i: Seq<char>, p: PropertyExpressionV, j: Seq<char>| self.graph.linked(i, p, j) == g0.linked(i, p, j),
                forall|a: Seq<char>, b: Seq<char>| self.graph.same(a, b) == g0.same(a, b),
                forall|a: Seq<char>, b: Seq<char>| self.graph.different(a, b) == g0.different(a, b),
                changed == gained_label(self.graph, g0),
            decreases pairs.len() - k,
        {
            let ghost e = pv[k as int];
            proof {
                assert(pv.contains(e));
                assert(g0.labeled(e.0, e.1));
                assert(g0.has_node(e.0));
            }
            match &pairs[k].1 {
                ClassExpression::IntersectionOf(cs) => {
                    let ind = &pairs[k].0;
                    let ghost csv = ce_seq_view(cs@);
                    proof {
                        lemma_ce_seq_view(cs@);
                        assert(e == (ind.node_view(), ClassExpressionV::IntersectionOf(csv)));
                        assert(csv.take(0) =~= Seq::<ClassExpressionV>::empty());
                    }
                    let mut m: usize = 0;
                    while m < cs.len()
                        invariant
                            m <= cs@.len(),
                            csv == ce_seq_view(cs@),
                            csv.len() == cs@.len(),
                            forall|q: int| 0 <= q < cs@.len() ==> #[trigger] csv[q] == ce_view(cs@[q]),
                            g0.has_node(ind.node_view()),
                            self.graph.wf(),
                            forall|i: Seq<char>| self.graph.has_node(i) == g0.has_node(i),
                            forall|i: Seq<char>, c: ClassExpressionV| #[trigger] self.graph.labeled(i, c) <==> (g0.labeled(i, c) || inter_done(pv, k as int, i, c)
                                || (i == ind.node_view() && csv.take(m as int).contains(c))),
                            forall|i: Seq<char>, p: PropertyExpressionV, j: Seq<char>| self.graph.linked(i, p, j) == g0.linked(i, p, j),
                            forall|a: Seq<char>, b: Seq<char>| self.graph.same(a, b) == g0.same(a, b),
                            forall|a: Seq<char>, b: Seq<char>| self.graph.different(a, b) == g0.different(a, b),
                            changed == gained_label(self.graph, g0),
                        decreases cs.len() - m,
                    {
                        proof {
                            crate::lite::tableau::lemma_take_push(csv, m as int);
                        }
                        let ghost gm = self.graph;
                        if !self.graph.has_label(ind, &cs[m]) {
                            self.graph.add_label(ind, cs[m].copy());
                            changed = true;
                            proof {
                                assert(self.graph.labeled(ind.node_view(), csv[m as int]) && !g0.labeled(ind.node_view(), csv[m as int]));
                            }
                        }
                        proof {
                            assert forall|i: Seq<char>, c: ClassExpressionV| #[trigger] self.graph.labeled(i, c) <==> (g0.labeled(i, c) || inter_done(pv, k as int, i, c)
                                || (i == ind.node_view() && csv.take(m + 1).contains(c))) by {
                                assert(#[trigger] gm.labeled(i, c) <==> (g0.labeled(i, c) || inter_done(pv, k as int, i, c)
                                    || (i == ind.node_view() && csv.take(m as int).contains(c))));
                            }
                            if changed {
                                if !gained_label(gm, g0) {
                                    assert(self.graph.labeled(ind.node_view(), csv[m as int]) && !g0.labeled(ind.node_view(), csv[m as int]));
                                }
                            }
                            if gained_label(self.graph, g0) && !gained_label(gm, g0) {
                                let (i, c) = choose|i: Seq<char>, c: ClassExpressionV| #[trigger] self.graph.labeled(i, c) && !g0.labeled(i, c);
                                assert(gm.labeled(i, c) || (i == ind.node_view() && c == csv[m as int]));
                            }
                        }
                        m += 1;
                    }
                    proof {
                        assert(csv.take(cs@.len() as int) =~= csv);
                        assert forall|i: Seq<char>, c: ClassExpressionV| inter_done(pv, k + 1, i, c) <==> (inter_done(pv, k as int, i, c)
                            || (i == ind.node_view() && csv.contains(c))) by {
                            if inter_done(pv, k + 1, i, c) {
                                let q = choose|q: int| 0 <= q < k + 1 && #[trigger] inter_entry(pv[q], i, c);
                                if q < k { assert(inter_done(pv, k as int, i, c)); }
                            }
                            if inter_done(pv, k as int, i, c) {
                                let q = choose|q: int| 0 <= q < k && #[trigger] inter_entry(pv[q], i, c);
                                assert(inter_entry(pv[q], i, c));
                            }
                            if i == ind.node_view() && csv.contains(c) {
                                assert(inter_entry(pv[k as int], i, c));
                            }
                        }
                    }
                },
                _ => {
                    proof {
                        assert(!(e.1 is IntersectionOf));
                        assert forall|i: Seq<char>, c: ClassExpressionV| inter_done(pv, k + 1, i, c) <==> inter_done(pv, k as int, i, c) by {
                            if inter_done(pv, k + 1, i, c) {
                                let q = choose|q: int| 0 <= q < k + 1 && #[trigger] inter_entry(pv[q], i, c);
                                if q < k { assert(inter_done(pv, k as int, i, c)); }
                            }
                            if inter_done(pv, k as int, i, c) {
                                let q = choose|q: int| 0 <= q < k && #[trigger] inter_entry(pv[q], i, c);
                                assert(inter_entry(pv[q], i, c));
                            }
                        }
                    }
                },
            }
            k += 1;
        }
        proof {
            assert forall|i: Seq<char>, c: ClassExpressionV| inter_done(pv, pv.len() as int, i, c) <==> intersection_part(g0, i, c) by {
                if inter_done(pv, pv.len() as int, i, c) {
                    let q = choose|q: int| 0 <= q < pv.len() && #[trigger] inter_entry(pv[q], i, c);
                    assert(pv.contains(pv[q]));
                    match pv[q].1 {
                        ClassExpressionV::IntersectionOf(cs) => {
                            assert(g0.labeled(i, ClassExpressionV::IntersectionOf(cs)));
                        },
                        _ => {},
                    }
                }
                if intersection_part(g0, i, c) {
                    let cs = choose|cs: Seq<ClassExpressionV>| #[trigger] g0.labeled(i, ClassExpressionV::IntersectionOf(cs)) && cs.contains(c);
                    assert(pv.contains((i, ClassExpressionV::IntersectionOf(cs))));
                    let q = choose|q: int| 0 <= q < pv.len() && pv[q] == (i, ClassExpressionV::IntersectionOf(cs));
                    assert(inter_entry(pv[q], i, c));
                }
            }
        }
        proof {
            if !changed {
                assert forall|i: Seq<char>, c: ClassExpressionV| #[trigger] intersection_part(g0, i, c) implies g0.labeled(i, c) by {
                    assert(self.graph.labeled(i, c));
                }
            }
        }
        Ok(changed)
    }

    /// Label every successor of an `AllValuesFrom(p, c)` individual along
    /// `p` with `c`; true when a label was added.
    fn apply_universal_rule(&mut self, _ontology: &OwlDlOntology) -> (r: Result<bool, OwlDlError>)
        requires
            old(self).wf(),
        ensures
            final(self).wf(),
            forall|i: Seq<char>| final(self).completion().has_node(i) <==> (old(self).completion().has_node(i)
                || exists|c: ClassExpressionV| #[trigger] universal_part(old(self).completion(), i, c)),
            forall|i: Seq<char>, c: ClassExpressionV| #[trigger] final(self).completion().labeled(i, c) <==> (old(self).completion().labeled(i, c)
                || universal_part(old(self).completion(), i, c)),
            forall|i: Seq<char>, p: PropertyExpressionV, j: Seq<char>| final(self).completion().linked(i, p, j) == old(self).completion().linked(i, p, j),
            forall|a: Seq<char>, b: Seq<char>| final(self).completion().same(a, b) == old(self).completion().same(a, b),
            forall|a: Seq<char>, b: Seq<char>| final(self).completion().different(a, b) == old(self).completion().different(a, b),
            r == Ok::<bool, OwlDlError>(gained_label(final(self).completion(), old(self).completion())),
            r == Ok::<bool, OwlDlError>(false) ==> final(self).completion().same_relations(old(self).completion())
                && univ_closed(old(self).completion()),
    {
        let ghost g0 = self.graph;
        let pairs = hier_flatten(&self.graph.individual_labels);
        let ghost pv = edge_views(pairs@);
        proof {
            assert forall|i: Seq<char>, x: ClassExpressionV| pv.contains((i, x)) <==> g0.labeled(i, x) by {
                crate::hierarchy::lemma_hier_edges_contains(g0.individual_labels@, i, x);
            }
        }
        let mut changed = false;
        let mut k: usize = 0;
        while k < pairs.len()
            invariant
                k <= pairs@.len(),
                pv == edge_views(pairs@),
                forall|i: Seq<char>, x: ClassExpressionV| pv.contains((i, x)) <==> g0.labeled(i, x),
                self.graph.wf(),
                forall|i: Seq<char>| #[trigger] self.graph.has_node(i) <==> (g0.has_node(i)
                    || univ_any(pv, g0, k as int, i)),
                forall|i: Seq<char>, c: ClassExpressionV| #[trigger] self.graph.labeled(i, c) <==> (g0.labeled(i, c) || univ_done(pv, g0, k as int, i, c)),
                forall|i: Seq<char>, p: PropertyExpressionV, j: Seq<char>| #[trigger] self.graph.linked(i, p, j) == g0.linked(i, p, j),
                forall|a: Seq<char>, b: Seq<char>| #[trigger] self.graph.same(a, b) == g0.same(a, b),
                forall|a: Seq<char>, b: Seq<char>| #[trigger] self.graph.different(a, b) == g0.different(a, b),
                changed == gained_label(self.graph, g0),
            decreases pairs.len() - k,
        {
            let ghost e = pv[k as int];
            match &pairs[k].1 {
                ClassExpression::AllValuesFrom { property, class } => {
                    let ind = &pairs[k].0;
                    let ghost cv = ce_view(**class);
                    let ghost pvw = pe_view(*property);
                    let succ = self.graph.get_property_successors(ind, property);
                    let ghost sv = node_views(succ@);
                    proof {
                        assert(e == (ind.node_view(), ClassExpressionV::AllValuesFrom(pvw, Box::new(cv))));
                        assert(sv.take(0) =~= Seq::<Seq<char>>::empty());
                    }
                    let mut m: usize = 0;
                    while m < succ.len()
                        invariant
                            m <= succ@.len(),
                            sv == node_views(succ@),
                            cv == ce_view(**class),
                            forall|j: Seq<char>| sv.contains(j) <==> g0.linked(ind.node_view(), pvw, j),
                            e == (ind.node_view(), ClassExpressionV::AllValuesFrom(pvw, Box::new(cv))),
                            e == pv[k as int],
                            k < pv.len(),
                            self.graph.wf(),
                            forall|i: Seq<char>| #[trigger] self.graph.has_node(i) <==> (g0.has_node(i)
                                || univ_any(pv, g0, k as int, i) || sv.take(m as int).contains(i)),
                            forall|i: Seq<char>, c: ClassExpressionV| #[trigger] self.graph.labeled(i, c) <==> (g0.labeled(i, c) || univ_done(pv, g0, k as int, i, c)
                                || (c == cv && sv.take(m as int).contains(i))),
                            forall|i: Seq<char>, p: PropertyExpressionV, j: Seq<char>| #[trigger] self.graph.linked(i, p, j) == g0.linked(i, p, j),
                            forall|a: Seq<char>, b: Seq<char>| #[trigger] self.graph.same(a, b) == g0.same(a, b),
                            forall|a: Seq<char>, b: Seq<char>| #[trigger] self.graph.different(a, b) == g0.different(a, b),
                            changed == gained_label(self.graph, g0),
                        decreases succ.len() - m,
                    {
                        proof {
                            crate::lite::tableau::lemma_take_push(sv, m as int);
                        }
                        let ghost gm = self.graph;
                        if !self.graph.has_label(&succ[m], &**class) {
                            self.graph.add_label(&succ[m], (**class).copy());
                            changed = true;
                            proof {
                                assert(self.graph.labeled(sv[m as int], cv) && !g0.labeled(sv[m as int], cv));
                            }
                        }
                        proof {
                            assert forall|i: Seq<char>| #[trigger] self.graph.has_node(i) <==> (g0.has_node(i)
                                || univ_any(pv, g0, k as int, i) || sv.take(m + 1).contains(i)) by {
                                assert(gm.has_node(i) <==> (g0.has_node(i)
                                    || univ_any(pv, g0, k as int, i) || sv.take(m as int).contains(i)));
                                if i == sv[m as int] {
                                    assert(self.graph.labeled(i, cv));
                                }
                            }
                            assert forall|i: Seq<char>, c: ClassExpressionV| #[trigger] self.graph.labeled(i, c) <==> (g0.labeled(i, c) || univ_done(pv, g0, k as int, i, c)
                                || (c == cv && sv.take(m + 1).contains(i))) by {
                                assert(gm.labeled(i, c) <==> (g0.labeled(i, c) || univ_done(pv, g0, k as int, i, c)
                                    || (c == cv && sv.take(m as int).contains(i))));
                            }
                            if gained_label(self.graph, g0) && !gained_label(gm, g0) {
                                let (i, c) = choose|i: Seq<char>, c: ClassExpressionV| #[trigger] self.graph.labeled(i, c) && !g0.labeled(i, c);
                                assert(gm.labeled(i, c) || (i == sv[m as int] && c == cv));
                            }
                        }
                        m += 1;
                    }
                    proof {
                        assert(sv.take(succ@.len() as int) =~= sv);
                        assert forall|i: Seq<char>, c: ClassExpressionV| #[trigger] univ_done(pv, g0, k + 1, i, c) <==> (univ_done(pv, g0, k as int, i, c)
                            || (c == cv && sv.contains(i))) by {
                            if univ_done(pv, g0, k + 1, i, c) {
                                let q = choose|q: int| 0 <= q < k + 1 && #[trigger] univ_entry(pv[q], g0, i, c);
                                if q < k { assert(univ_done(pv, g0, k as int, i, c)); }
                            }
                            if univ_done(pv, g0, k as int, i, c) {
                                let q = choose|q: int| 0 <= q < k && #[trigger] univ_entry(pv[q], g0, i, c);
                                assert(univ_entry(pv[q], g0, i, c));
                            }
                            if c == cv && sv.contains(i) {
                                assert(univ_entry(pv[k as int], g0, i, c));
                            }
                        }
                        assert forall|i: Seq<char>| #[trigger] univ_any(pv, g0, k + 1, i) <==>
                            (univ_any(pv, g0, k as int, i) || sv.contains(i)) by {
                            if sv.contains(i) {
                                assert(univ_done(pv, g0, k + 1, i, cv));
                            }
                            if univ_any(pv, g0, k as int, i) {
                                let c = choose|c: ClassExpressionV| #[trigger] univ_done(pv, g0, k as int, i, c);
                                assert(univ_done(pv, g0, k + 1, i, c));
                            }
                        }
                    }
                },
                _ => {
                    proof {
                        assert(!(e.1 is AllValuesFrom));
                        assert forall|i: Seq<char>, c: ClassExpressionV| #[trigger] univ_done(pv, g0, k + 1, i, c) <==> univ_done(pv, g0, k as int, i, c) by {
                            if univ_done(pv, g0, k + 1, i, c) {
                                let q = choose|q: int| 0 <= q < k + 1 && #[trigger] univ_entry(pv[q], g0, i, c);
                                if q < k { assert(univ_done(pv, g0, k as int, i, c)); }
                            }
                            if univ_done(pv, g0, k as int, i, c) {
                                let q = choose|q: int| 0 <= q < k && #[trigger] univ_entry(pv[q], g0, i, c);
                                assert(univ_entry(pv[q], g0, i, c));
                            }
                        }
                        assert forall|i: Seq<char>| #[trigger] univ_any(pv, g0, k + 1, i) <==> univ_any(pv, g0, k as int, i) by {
                            if univ_any(pv, g0, k + 1, i) {
                                let c = choose|c: ClassExpressionV| #[trigger] univ_done(pv, g0, k + 1, i, c);
                                assert(univ_done(pv, g0, k as int, i, c));
                            }
                            if univ_any(pv, g0, k as int, i) {
                                let c = choose|c: ClassExpressionV| #[trigger] univ_done(pv, g0, k as int, i, c);
                                assert(univ_done(pv, g0, k + 1, i, c));
                            }
                        }
                    }
                },
            }
            k += 1;
        }
        proof {
            assert forall|i: Seq<char>, c: ClassExpressionV| #[trigger] univ_done(pv, g0, pv.len() as int, i, c) <==> universal_part(g0, i, c) by {
                if univ_done(pv, g0, pv.len() as int, i, c) {
                    let q = choose|q: int| 0 <= q < pv.len() && #[trigger] univ_entry(pv[q], g0, i, c);
                    assert(pv.contains(pv[q]));
                    match pv[q].1 {
                        ClassExpressionV::AllValuesFrom(p, bc) => {
                            assert(g0.labeled(pv[q].0, ClassExpressionV::AllValuesFrom(p, Box::new(c))));
                        },
                        _ => {},
                    }
                }
                if universal_part(g0, i, c) {
                    let (j, p) = choose|j: Seq<char>, p: PropertyExpressionV| #[trigger] g0.labeled(j, ClassExpressionV::AllValuesFrom(p, Box::new(c))) && g0.linked(j, p, i);
                    assert(pv.contains((j, ClassExpressionV::AllValuesFrom(p, Box::new(c)))));
                    let q = choose|q: int| 0 <= q < pv.len() && pv[q] == (j, ClassExpressionV::AllValuesFrom(p, Box::new(c)));
                    assert(univ_entry(pv[q], g0, i, c));
                }
            }
            assert forall|i: Seq<char>| #[trigger] univ_any(pv, g0, pv.len() as int, i) <==>
                (exists|c: ClassExpressionV| #[trigger] universal_part(g0, i, c)) by {
                if univ_any(pv, g0, pv.len() as int, i) {
                    let c = choose|c: ClassExpressionV| #[trigger] univ_done(pv, g0, pv.len() as int, i, c);
                    assert(universal_part(g0, i, c));
                }
                if exists|c: ClassExpressionV| #[trigger] universal_part(g0, i, c) {
                    let c = choose|c: ClassExpressionV| #[trigger] universal_part(g0, i, c);
                    assert(univ_done(pv, g0, pv.len() as int, i, c));
                }
            }
        }
        proof {
            if !changed {
                assert forall|i: Seq<char>, c: ClassExpressionV| #[trigger] universal_part(g0, i, c) implies g0.labeled(i, c) by {
                    assert(self.graph.labeled(i, c));
                }
                assert forall|i: Seq<char>| #[trigger] self.graph.has_node(i) == g0.has_node(i) by {
                    if self.graph.has_node(i) && !g0.has_node(i) {
                        let c = choose|c: ClassExpressionV| #[trigger] universal_part(g0, i, c);
                        assert(g0.labeled(i, c));
                        lemma_labeled_has_node(g0, i, c);
                    }
                }
            }
        }
        Ok(changed)
    }

    /// Give every `SomeValuesFrom(p, c)` individual a `p` successor
    /// labelled `c`: a new anonymous one when it has none, else every
    /// successor gets the label; true when the graph changed.
    fn apply_existential_rule(&mut self, _ontology: &OwlDlOntology) -> (r: Result<bool, OwlDlError>)
        requires
            old(self).wf(),
        ensures
            final(self).wf(),
            final(self).completion().extends(old(self).completion()),
            r is Ok,
            r == Ok::<bool, OwlDlError>(false) ==> final(self).completion().same_relations(old(self).completion())
                && ex_closed(old(self).completion()),
            r == Ok::<bool, OwlDlError>(true) ==> grew(final(self).completion(), old(self).completion()),
            ex_growth(final(self).completion(), old(self).completion()),
    {
        let ghost g0 = self.graph;
        let pairs = hier_flatten(&self.graph.individual_labels);
        let ghost pv = edge_views(pairs@);
        proof {
            assert forall|i: Seq<char>, x: ClassExpressionV| pv.contains((i, x)) <==> g0.labeled(i, x) by {
                crate::hierarchy::lemma_hier_edges_contains(g0.individual_labels@, i, x);
            }
        }
        let mut changed = false;
        let mut k: usize = 0;
        while k < pairs.len()
            invariant
                k <= pairs@.len(),
                pv == edge_views(pairs@),
                forall|i: Seq<char>, x: ClassExpressionV| pv.contains((i, x)) <==> g0.labeled(i, x),
                self.graph.wf(),
                self.graph.extends(g0),
                !changed ==> self.graph.same_relations(g0),
                changed ==> grew(self.graph, g0),
                ex_growth(self.graph, g0),
                !changed ==> forall|q: int| 0 <= q < k ==> #[trigger] ex_entry_ok(g0, pv[q].0, pv[q].1),
            decreases pairs.len() - k,
        {
            let ghost e = pv[k as int];
            match &pairs[k].1 {
                ClassExpression::SomeValuesFrom { property, class } => {
                    let ind = &pairs[k].0;
                    let ghost cv = ce_view(**class);
                    let ghost pvw = pe_view(*property);
                    let succ = self.graph.get_property_successors(ind, property);
                    let ghost sv = node_views(succ@);
                    proof {
                        assert(e == (ind.node_view(), ClassExpressionV::SomeValuesFrom(pvw, Box::new(cv))));
                        assert(pv.contains(e));
                    }
                    if succ.len() == 0 {
                        let name = join("anon_", ind.0.0.as_str());
                        let fresh = Individual(OwlIri(name));
                        let ghost gb = self.graph;
                        proof {
                            assert(pv.contains(e));
                            assert(g0.labeled(ind.node_view(), ClassExpressionV::SomeValuesFrom(pvw, Box::new(cv))));
                            assert(fresh.node_view() == "anon_"@ + ind.node_view());
                        }
                        self.graph.add_property_assertion(ind, property.copy(), &fresh);
                        proof {
                            lemma_ex_growth_link(g0, gb, self.graph, ind.node_view(), pvw, cv);
                        }
                        let ghost gm = self.graph;
                        self.graph.add_label(&fresh, (**class).copy());
                        proof {
                            assert(gm.linked(ind.node_view(), pvw, fresh.node_view()));
                            assert(gm.extends(g0));
                            lemma_ex_growth_label(g0, gm, self.graph, ind.node_view(), pvw, fresh.node_view(), cv);
                            assert(!sv.contains(fresh.node_view()));
                            assert(!gb.linked(ind.node_view(), pvw, fresh.node_view()));
                            assert(self.graph.linked(ind.node_view(), pvw, fresh.node_view()));
                            assert(self.graph.extends(gb));
                            lemma_grew_after(g0, gb, self.graph);
                        }
                        changed = true;
                    } else {
                        let ghost before_changed = changed;
                        let mut m: usize = 0;
                        while m < succ.len()
                            invariant
                                m <= succ@.len(),
                                sv == node_views(succ@),
                                cv == ce_view(**class),
                                self.graph.wf(),
                                self.graph.extends(g0),
                                !changed ==> self.graph.same_relations(g0),
                                changed ==> grew(self.graph, g0),
                                ex_growth(self.graph, g0),
                                g0.labeled(ind.node_view(), ClassExpressionV::SomeValuesFrom(pvw, Box::new(cv))),
                                forall|j: Seq<char>| sv.contains(j) ==> #[trigger] self.graph.linked(ind.node_view(), pvw, j),
                                !changed ==> !before_changed,
                                !changed ==> forall|q: int| 0 <= q < m ==> #[trigger] self.graph.labeled(sv[q], cv),
                            decreases succ.len() - m,
                        {
                            if !self.graph.has_label(&succ[m], &**class) {
                                let ghost gb = self.graph;
                                proof {
                                    assert(sv.contains(sv[m as int]));
                                    assert(gb.linked(ind.node_view(), pvw, succ@[m as int].node_view()));
                                }
                                self.graph.add_label(&succ[m], (**class).copy());
                                proof {
                                    lemma_ex_growth_label(g0, gb, self.graph, ind.node_view(), pvw, succ@[m as int].node_view(), cv);
                                    assert(self.graph.labeled(succ@[m as int].node_view(), cv));
                                    assert(self.graph.extends(gb));
                                    lemma_grew_after(g0, gb, self.graph);
                                }
                                changed = true;
                            }
                            m += 1;
                        }
                        proof {
                            if !changed {
                                assert(sv.len() > 0);
                                assert(sv.contains(sv[0]));
                                assert(g0.linked(ind.node_view(), pvw, sv[0]));
                                assert forall|j: Seq<char>| #[trigger] g0.linked(ind.node_view(), pvw, j) implies g0.labeled(j, cv) by {
                                    assert(sv.contains(j));
                                    let q = choose|q: int| 0 <= q < sv.len() && sv[q] == j;
                                    assert(self.graph.labeled(sv[q], cv));
                                }
                                assert(ex_entry_ok(g0, e.0, e.1));
                            }
                        }
                    }
                },
                _ => {
                    proof {
                        assert(!(e.1 is SomeValuesFrom));
                        assert(ex_entry_ok(g0, e.0, e.1));
                    }
                },
            }
            k += 1;
        }
        proof {
            if !changed {
                assert forall|i: Seq<char>, x: ClassExpressionV| #[trigger] g0.labeled(i, x) implies ex_entry_ok(g0, i, x) by {
                    assert(pv.contains((i, x)));
                    let q = choose|q: int| 0 <= q < pv.len() && pv[q] == (i, x);
                    assert(ex_entry_ok(g0, pv[q].0, pv[q].1));
                }
            }
        }
        Ok(changed)
    }

    /// Give every `MinCardinality(n, p, c)` individual with a class and
    /// fewer than `n` successors one more, new and anonymous; true when such
    /// an individual was found.
    fn apply_cardinality_rules(&mut self) -> (r: Result<bool, OwlDlError>)
        requires
            old(self).wf(),
        ensures
            final(self).wf(),
            final(self).completion().extends(old(self).completion()),
            r is Ok,
            r == Ok::<bool, OwlDlError>(false) ==> final(self).completion().same_relations(old(self).completion())
                && min_closed(old(self).completion()),
            r == Ok::<bool, OwlDlError>(true) ==> !min_closed(old(self).completion()),
            min_growth(final(self).completion(), old(self).completion()),
    {
        let ghost g0 = self.graph;
        let pairs = hier_flatten(&self.graph.individual_labels);
        let ghost pv = edge_views(pairs@);
        proof {
            assert forall|i: Seq<char>, x: ClassExpressionV| pv.contains((i, x)) <==> g0.labeled(i, x) by {
                crate::hierarchy::lemma_hier_edges_contains(g0.individual_labels@, i, x);
            }
        }
        let mut changed = false;
        let mut k: usize = 0;
        while k < pairs.len()
            invariant
                k <= pairs@.len(),
                pv == edge_views(pairs@),
                forall|i: Seq<char>, x: ClassExpressionV| pv.contains((i, x)) <==> g0.labeled(i, x),
                self.graph.wf(),
                self.graph.extends(g0),
                !changed ==> self.graph.same_relations(g0),
                !changed ==> forall|q: int| 0 <= q < k ==> #[trigger] min_entry_ok(g0, pv[q].0, pv[q].1),
                changed ==> !min_closed(g0),
                min_growth(self.graph, g0),
            decreases pairs.len() - k,
        {
            let ghost e = pv[k as int];
            match &pairs[k].1 {
                ClassExpression::MinCardinality { cardinality, property, class } => {
                    let ind = &pairs[k].0;
                    let succ = self.graph.get_property_successors(ind, property);
                    let count = succ.len();
                    if count < *cardinality as usize {
                        proof {
                            let sv = node_views(succ@);
                            let pw = pe_view(*property);
                            assert(pv.contains(e));
                            assert(g0.labeled(e.0, e.1));
                            assert(e.0 == ind.node_view());
                            if successors_at_least(g0, e.0, pw, *cardinality as nat) {
                                let s = choose|s: Seq<Seq<char>>| distinct(s) && (*cardinality as nat) <= s.len()
                                    && forall|j: Seq<char>| #[trigger] s.contains(j) <==> g0.linked(e.0, pw, j);
                                assert forall|x: Seq<char>| s.contains(x) implies sv.contains(x) by {
                                    assert(g0.linked(e.0, pw, x));
                                }
                                lemma_distinct_len_le(s, sv);
                            }
                        }
                        match class {
                            Some(class_expr) => {
                                proof {
                                    assert(!min_entry_ok(g0, e.0, e.1));
                                }
                                let tail = join("_", decimal(usize_to_u64(count)).as_str());
                                let head = join("anon_min_", ind.0.0.as_str());
                                let name = join(head.as_str(), tail.as_str());
                                let fresh = Individual(OwlIri(name));
                                let ghost cw = ce_view(**class_expr);
                                let ghost pw = pe_view(*property);
                                let ghost gb = self.graph;
                                proof {
                                    assert(e.1 == ClassExpressionV::MinCardinality(*cardinality, pw, Some(Box::new(cw))));
                                    assert(g0.labeled(ind.node_view(), ClassExpressionV::MinCardinality(*cardinality, pw, Some(Box::new(cw)))));
                                    assert(fresh.node_view() == min_fresh_name(ind.node_view(), count as nat));
                                }
                                self.graph.add_property_assertion(ind, property.copy(), &fresh);
                                proof {
                                    lemma_min_growth_link(g0, gb, self.graph, ind.node_view(), *cardinality, pw, cw, count as nat);
                                }
                                let ghost gm = self.graph;
                                self.graph.add_label(&fresh, (**class_expr).copy());
                                proof {
                                    assert(gm.linked(ind.node_view(), pw, fresh.node_view()));
                                    lemma_min_growth_label(g0, gm, self.graph, ind.node_view(), *cardinality, pw, fresh.node_view(), cw);
                                }
                                changed = true;
                            },
                            None => {
                                proof {
                                    assert(min_entry_ok(g0, e.0, e.1));
                                }
                            },
                        }
                    } else {
                        proof {
                            let sv = node_views(succ@);
                            assert(e.0 == ind.node_view());
                            if !changed {
                                assert(forall|j: Seq<char>| #[trigger] sv.contains(j) <==> g0.linked(e.0, pe_view(*property), j));
                                assert(successors_at_least(g0, e.0, pe_view(*property), *cardinality as nat));
                                assert(min_entry_ok(g0, e.0, e.1));
                            }
                        }
                    }
                },
                _ => {
                    proof {
                        assert(!(e.1 is MinCardinality));
                        assert(min_entry_ok(g0, e.0, e.1));
                    }
                },
            }
            k += 1;
        }
        proof {
            if !changed {
                assert forall|i: Seq<char>, x: ClassExpressionV| #[trigger] g0.labeled(i, x) implies min_entry_ok(g0, i, x) by {
                    assert(pv.contains((i, x)));
                    let q = choose|q: int| 0 <= q < pv.len() && pv[q] == (i, x);
                    assert(min_entry_ok(g0, pv[q].0, pv[q].1));
                }
            }
        }
        Ok(changed)
    }

    /// Copy the labels and property edges of the first member of each class
    /// of same individuals to the other members; true when a label was
    /// added or an edge copied.
    fn apply_individual_rules(&mut self) -> (r: Result<bool, OwlDlError>)
        requires
            old(self).wf(),
        ensures
            final(self).wf(),
            final(self).completion().extends(old(self).completion()),
            r is Ok,
            r == Ok::<bool, OwlDlError>(false) ==> final(self).completion().same_relations(old(self).completion()),
            r == Ok::<bool, OwlDlError>(true) ==> grew(final(self).completion(), old(self).completion())
                || relinks_same(old(self).completion()),
            same_growth(final(self).completion(), old(self).completion()),
    {
        let ghost g0 = self.graph;
        let classes = copy_classes(&self.graph.same_individuals);
        let mut changed = false;
        let mut k: usize = 0;
        while k < classes.len()
            invariant
                k <= classes@.len(),
                classes@.len() == g0.same_individuals@.len(),
                forall|q: int| 0 <= q < g0.same_individuals@.len() ==> node_views(#[trigger] classes@[q]@) == node_views(g0.same_individuals@[q]@),
                classes_wf(g0.same_individuals@),
                self.graph.wf(),
                self.graph.extends(g0),
                forall|a: Seq<char>, b: Seq<char>| self.graph.same(a, b) == g0.same(a, b),
                !changed ==> self.graph.same_relations(g0),
                changed ==> grew(self.graph, g0) || relinks_same(g0),
                same_growth(self.graph, g0),
            decreases classes.len() - k,
        {
            let cls = &classes[k];
            let ghost cv = node_views(cls@);
            proof {
                assert(cv == node_views(g0.same_individuals@[k as int]@));
                assert(distinct(cv));
            }
            let mut idx: usize = 1;
            while idx < cls.len()
                invariant
                    1 <= idx,
                    k < g0.same_individuals@.len(),
                    cv == node_views(cls@),
                    cv == node_views(g0.same_individuals@[k as int]@),
                    distinct(cv),
                    self.graph.wf(),
                    self.graph.extends(g0),
                    forall|a: Seq<char>, b: Seq<char>| self.graph.same(a, b) == g0.same(a, b),
                    !changed ==> self.graph.same_relations(g0),
                    changed ==> grew(self.graph, g0) || relinks_same(g0),
                    same_growth(self.graph, g0),
                decreases cls.len() - idx,
            {
                let source = &cls[0];
                let target = &cls[idx];
                let ghost gr = self.graph;
                let source_labels = match hier_get(&self.graph.individual_labels, source) {
                    Some(v) => copy_nodes(v),
                    None => Vec::new(),
                };
                let source_links = match hier_get(&self.graph.property_assertions, source) {
                    Some(v) => copy_nodes(v),
                    None => Vec::new(),
                };
                let ghost sn = source.node_view();
                let ghost tn = target.node_view();
                proof {
                    assert(sn == cv[0] && tn == cv[idx as int]);
                    assert(sn != tn);
                    assert(node_views(g0.same_individuals@[k as int]@).contains(sn));
                    assert(node_views(g0.same_individuals@[k as int]@).contains(tn));
                    assert(g0.same(sn, tn));
                    assert forall|x: ClassExpressionV| node_views(source_labels@).contains(x) implies #[trigger] gr.labeled(sn, x) by {}
                    assert forall|x: DlLinkV| node_views(source_links@).contains(x) implies #[trigger] gr.linked(sn, x.property, x.target) by {
                        assert(x == DlLinkV { property: x.property, target: x.target });
                    }
                    if source_links@.len() > 0 {
                        let x = source_links@[0].node_view();
                        assert(node_views(source_links@)[0] == x);
                        assert(node_views(source_links@).contains(x));
                        assert(gr.linked(sn, x.property, x.target));
                        if !grew(gr, g0) {
                            assert(g0.linked(sn, x.property, x.target));
                            assert(node_views(g0.same_individuals@[k as int]@).contains(sn));
                            assert(node_views(g0.same_individuals@[k as int]@).contains(tn));
                            assert(g0.same(sn, tn));
                            assert(relinks_same(g0));
                        }
                    }
                }
                let mut m: usize = 0;
                while m < source_labels.len()
                    invariant
                        self.graph.wf(),
                        self.graph.extends(gr),
                        gr.extends(g0),
                        self.graph.extends(g0),
                        forall|a: Seq<char>, b: Seq<char>| self.graph.same(a, b) == g0.same(a, b),
                        !changed ==> self.graph.same_relations(g0),
                        changed ==> grew(self.graph, g0) || relinks_same(g0),
                        same_growth(self.graph, g0),
                        sn != tn,
                        g0.same(sn, tn),
                        sn == source.node_view(),
                        tn == target.node_view(),
                        forall|x: ClassExpressionV| node_views(source_labels@).contains(x) ==> #[trigger] gr.labeled(sn, x),
                    decreases source_labels.len() - m,
                {
                    if !self.graph.has_label(target, &source_labels[m]) {
                        let ghost gb = self.graph;
                        proof {
                            assert(node_views(source_labels@)[m as int] == source_labels@[m as int].node_view());
                            assert(node_views(source_labels@).contains(source_labels@[m as int].node_view()));
                            assert(gr.labeled(sn, source_labels@[m as int].node_view()));
                        }
                        self.graph.add_label(target, source_labels[m].copy());
                        proof {
                            lemma_same_growth_label(g0, gb, self.graph, sn, tn, source_labels@[m as int].node_view());
                            assert(self.graph.labeled(target.node_view(), source_labels@[m as int].node_view()));
                            assert(self.graph.extends(gb));
                            lemma_grew_after(g0, gb, self.graph);
                        }
                        changed = true;
                    }
                    m += 1;
                }
                let mut m: usize = 0;
                while m < source_links.len()
                    invariant
                        self.graph.wf(),
                        self.graph.extends(gr),
                        gr.extends(g0),
                        self.graph.extends(g0),
                        source_links@.len() > 0 ==> grew(gr, g0) || relinks_same(g0),
                        forall|a: Seq<char>, b: Seq<char>| self.graph.same(a, b) == g0.same(a, b),
                        !changed ==> self.graph.same_relations(g0),
                        changed ==> grew(self.graph, g0) || relinks_same(g0),
                        same_growth(self.graph, g0),
                        sn != tn,
                        g0.same(sn, tn),
                        sn == source.node_view(),
                        tn == target.node_view(),
                        forall|x: DlLinkV| node_views(source_links@).contains(x) ==> #[trigger] gr.linked(sn, x.property, x.target),
                    decreases source_links.len() - m,
                {
                    let ghost gb = self.graph;
                    let ghost lx = source_links@[m as int].node_view();
                    proof {
                        assert(node_views(source_links@)[m as int] == lx);
                        assert(node_views(source_links@).contains(lx));
                        assert(gr.linked(sn, lx.property, lx.target));
                    }
                    self.graph.add_property_assertion(target, source_links[m].property.copy(), &source_links[m].target);
                    proof {
                        lemma_same_growth_link(g0, gb, self.graph, sn, tn, lx.property, lx.target);
                        assert(self.graph.extends(gb));
                        if grew(gb, g0) {
                            lemma_grew_after(g0, gb, self.graph);
                        } else if grew(gr, g0) {
                            lemma_grew_after(g0, gr, self.graph);
                        }
                    }
                    changed = true;
                    m += 1;
                }
                idx += 1;
            }
            k += 1;
        }
        Ok(changed)
    }

    /// Unions are not expanded: this rule never changes the graph.
    fn apply_union_rule(&mut self) -> (r: Result<bool, OwlDlError>)
        ensures
            *final(self) == *old(self),
            r == Ok::<bool, OwlDlError>(false),
    {
        Ok(false)
    }

}

/// Being the same individual is symmetric and transitive in every
/// well-formed completion graph.
pub proof fn law_same_individual_equivalence(g: DlCompletionGraph)
    requires
        g.wf(),
    ensures
        forall|a: Seq<char>, b: Seq<char>| #[trigger] g.same(a, b) ==> g.same(b, a),
        forall|a: Seq<char>, b: Seq<char>, c: Seq<char>| #[trigger] g.same(a, b) && #[trigger] g.same(b, c) ==> g.same(a, c),
{
    let cs = g.same_individuals@;
    assert forall|a: Seq<char>, b: Seq<char>| #[trigger] g.same(a, b) implies g.same(b, a) by {
        let k = choose|k: int| 0 <= k < cs.len() && #[trigger] node_views(cs[k]@).contains(a) && node_views(cs[k]@).contains(b);
        assert(node_views(cs[k]@).contains(b) && node_views(cs[k]@).contains(a));
    }
    assert forall|a: Seq<char>, b: Seq<char>, c: Seq<char>| #[trigger] g.same(a, b) && #[trigger] g.same(b, c) implies g.same(a, c) by {
        let k = choose|k: int| 0 <= k < cs.len() && #[trigger] node_views(cs[k]@).contains(a) && node_views(cs[k]@).contains(b);
        let l = choose|l: int| 0 <= l < cs.len() && #[trigger] node_views(cs[l]@).contains(b) && node_views(cs[l]@).contains(c);
        lemma_class_of(cs, k, c, b);
        assert(node_views(cs[k]@).contains(c));
    }
}

/// Different individuals are different in both orders.
pub proof fn law_different_symmetric(g: DlCompletionGraph)
    requires
        g.wf(),
    ensures
        forall|a: Seq<char>, b: Seq<char>| #[trigger] g.different(a, b) ==> g.different(b, a),
{
    assert forall|a: Seq<char>, b: Seq<char>| #[trigger] g.different(a, b) implies g.different(b, a) by {
        assert(edge_views(g.different_individuals@).contains((a, b)));
    }
}

/// The pairs, each also taken the other way round.
pub open spec fn both_ways(ps: Seq<(Seq<char>, Seq<char>)>) -> Seq<(Seq<char>, Seq<char>)> {
    ps + ps.map_values(|q: (Seq<char>, Seq<char>)| (q.1, q.0))
}

/// `g1` holds, of sameness, what `add_same_individual` with `a` and `b`
/// makes of `g0`.
pub open spec fn same_added(g0: DlCompletionGraph, g1: DlCompletionGraph, a: Seq<char>, b: Seq<char>) -> bool {
    forall|x: Seq<char>, y: Seq<char>| #[trigger] g1.same(x, y) <==> (g0.same(x, y)
        || (g0.merged_with(x, a, b) && g0.merged_with(y, a, b)))
}

/// `x` and `y` are equal or the same individual in `g`.
spec fn same_or_equal(g: DlCompletionGraph, x: Seq<char>, y: Seq<char>) -> bool {
    x == y || g.same(x, y)
}

/// `x` and `y` are equal or joined by a path along `e`.
spec fn reach_or_equal(e: Seq<(Seq<char>, Seq<char>)>, x: Seq<char>, y: Seq<char>) -> bool {
    x == y || reaches(e, x, y)
}

proof fn lemma_reach_or_equal_trans(e: Seq<(Seq<char>, Seq<char>)>, x: Seq<char>, y: Seq<char>, z: Seq<char>)
    requires
        reach_or_equal(e, x, y),
        reach_or_equal(e, y, z),
    ensures
        reach_or_equal(e, x, z),
{
    if x != y && y != z {
        lemma_reaches_transitive(e, x, y, z);
    }
}

/// Along a path whose every pair is equal or the same individual, the
/// ends are equal or the same individual.
proof fn lemma_path_same(g: DlCompletionGraph, e: Seq<(Seq<char>, Seq<char>)>, p: Seq<Seq<char>>)
    requires
        g.wf(),
        is_path(e, p),
        forall|x: Seq<char>, y: Seq<char>| e.contains((x, y)) ==> same_or_equal(g, x, y),
    ensures
        same_or_equal(g, p[0], p.last()),
    decreases p.len(),
{
    assert(e.contains((p[0], p[1])));
    if p.len() > 2 {
        let q = p.drop_last();
        assert forall|i: int| 0 <= i < q.len() - 1 implies e.contains((#[trigger] q[i], q[i + 1])) by {
            assert(q[i] == p[i] && q[i + 1] == p[i + 1]);
            assert(e.contains((p[i], p[i + 1])));
        }
        assert(is_path(e, q));
        lemma_path_same(g, e, q);
        assert(q[0] == p[0]);
        let m = p[p.len() - 2];
        assert(e.contains((p[p.len() - 2], p[p.len() - 1])));
        assert(q.last() == m);
        law_same_individual_equivalence(g);
        assert(same_or_equal(g, m, p.last()));
        if p[0] != m && m != p.last() {
            assert(g.same(p[0], m));
            assert(g.same(m, p.last()));
        }
    }
}

/// One merge step, first half: each new sameness of different individuals
/// is joined along `e` with the pair `a`, `b` added in both directions.
proof fn lemma_same_step_joined(g0: DlCompletionGraph, g1: DlCompletionGraph, a: Seq<char>, b: Seq<char>,
    e: Seq<(Seq<char>, Seq<char>)>, e2: Seq<(Seq<char>, Seq<char>)>, u: Seq<char>, v: Seq<char>)
    requires
        g0.wf(),
        same_added(g0, g1, a, b),
        forall|x: Seq<char>, y: Seq<char>| x != y && #[trigger] g0.same(x, y) ==> reaches(e, x, y),
        forall|x: Seq<char>, y: Seq<char>| e.contains((x, y)) ==> #[trigger] e2.contains((x, y)),
        e2.contains((a, b)),
        e2.contains((b, a)),
        u != v,
        g1.same(u, v),
    ensures
        reaches(e2, u, v),
{
    if g0.same(u, v) {
        lemma_reaches_mono(e, e2, u, v);
    } else {
        law_same_individual_equivalence(g0);
        lemma_edge_reaches(e2, a, b);
        lemma_edge_reaches(e2, b, a);
        assert(g0.merged_with(u, a, b) && g0.merged_with(v, a, b));
        let m1 = if u == a || (u != b && g0.same(u, a)) { a } else { b };
        assert(reach_or_equal(e2, u, m1)) by {
            if u != m1 {
                assert(g0.same(u, m1));
                lemma_reaches_mono(e, e2, u, m1);
            }
        }
        let m2 = if v == a || (v != b && g0.same(v, a)) { a } else { b };
        assert(reach_or_equal(e2, m2, v)) by {
            if v != m2 {
                assert(g0.same(v, m2));
                assert(g0.same(m2, v));
                lemma_reaches_mono(e, e2, m2, v);
            }
        }
        assert(reach_or_equal(e2, m1, m2));
        lemma_reach_or_equal_trans(e2, u, m1, m2);
        lemma_reach_or_equal_trans(e2, u, m2, v);
    }
}

/// One merge step: where sameness of different individuals was being
/// joined along `e`, after merging `a` and `b` it is being joined along
/// `e` with the pair `a`, `b` added in both directions.
proof fn lemma_same_step(g0: DlCompletionGraph, g1: DlCompletionGraph, a: Seq<char>, b: Seq<char>,
    e: Seq<(Seq<char>, Seq<char>)>, e2: Seq<(Seq<char>, Seq<char>)>)
    requires
        g0.wf(),
        g1.wf(),
        same_added(g0, g1, a, b),
        forall|u: Seq<char>, v: Seq<char>| u != v ==> (g0.same(u, v) <==> reaches(e, u, v)),
        forall|x: Seq<char>, y: Seq<char>| #[trigger] e2.contains((x, y)) <==> (e.contains((x, y)) || (x == a && y == b) || (x == b && y == a)),
    ensures
        forall|u: Seq<char>, v: Seq<char>| u != v ==> (g1.same(u, v) <==> reaches(e2, u, v)),
{
    assert(e2.contains((a, b)) && e2.contains((b, a)));
    assert forall|u: Seq<char>, v: Seq<char>| u != v && g1.same(u, v) implies reaches(e2, u, v) by {
        lemma_same_step_joined(g0, g1, a, b, e, e2, u, v);
    }
    assert forall|x: Seq<char>, y: Seq<char>| e2.contains((x, y)) implies same_or_equal(g1, x, y) by {
        if x != y {
            if e.contains((x, y)) {
                lemma_edge_reaches(e, x, y);
                assert(g0.same(x, y));
                assert(g1.same(x, y));
            } else {
                assert(g0.merged_with(x, a, b) && g0.merged_with(y, a, b));
                assert(g1.same(x, y));
            }
        }
    }
    assert forall|u: Seq<char>, v: Seq<char>| u != v && reaches(e2, u, v) implies g1.same(u, v) by {
        let p = choose|p: Seq<Seq<char>>| #[trigger] is_path(e2, p) && p[0] == u && p.last() == v;
        lemma_path_same(g1, e2, p);
    }
}

/// The pairs of `ps` both ways are those of all but the last, both ways,
/// and the last in either direction.
proof fn lemma_both_ways_push(ps: Seq<(Seq<char>, Seq<char>)>)
    requires
        ps.len() > 0,
    ensures
        forall|x: Seq<char>, y: Seq<char>| #[trigger] both_ways(ps).contains((x, y)) <==> (both_ways(ps.drop_last()).contains((x, y))
            || (x == ps.last().0 && y == ps.last().1) || (x == ps.last().1 && y == ps.last().0)),
{
    let n = ps.len() - 1;
    let p0 = ps.drop_last();
    let w = both_ways(ps);
    let w0 = both_ways(p0);
    assert(w.len() == 2 * ps.len());
    assert(w0.len() == 2 * p0.len());
    assert forall|x: Seq<char>, y: Seq<char>| #[trigger] w.contains((x, y)) <==> (w0.contains((x, y))
        || (x == ps.last().0 && y == ps.last().1) || (x == ps.last().1 && y == ps.last().0)) by {
        if w.contains((x, y)) {
            let k = choose|k: int| 0 <= k < w.len() && w[k] == (x, y);
            if k < n {
                assert(w0[k] == w[k]);
            } else if k == n {
            } else if k < 2 * n + 1 {
                assert(w0[k - 1] == w[k]);
            } else {
            }
        }
        if w0.contains((x, y)) {
            let k = choose|k: int| 0 <= k < w0.len() && w0[k] == (x, y);
            if k < n {
                assert(w[k] == w0[k]);
            } else {
                assert(w[k + 1] == w0[k]);
            }
        }
        if x == ps.last().0 && y == ps.last().1 {
            assert(w[n] == (x, y));
        }
        if x == ps.last().1 && y == ps.last().0 {
            assert(w[2 * n + 1] == (x, y));
        }
    }
}

/// Sameness after a run of `add_same_individual` calls, starting from a
/// graph in which no individuals are the same: two different individuals
/// are the same exactly when a chain of the merged pairs, each taken in
/// either direction, leads from one to the other. In particular nothing
/// that was the same is forgotten, and each merged pair of different
/// individuals is the same afterwards.
pub proof fn law_same_individual_closure(gs: Seq<DlCompletionGraph>, ps: Seq<(Seq<char>, Seq<char>)>)
    requires
        gs.len() == ps.len() + 1,
        forall|k: int| 0 <= k < gs.len() ==> #[trigger] gs[k].wf(),
        forall|a: Seq<char>, b: Seq<char>| !gs[0].same(a, b),
        forall|k: int| 0 <= k < ps.len() ==> same_added(#[trigger] gs[k], gs[k + 1], ps[k].0, ps[k].1),
    ensures
        forall|u: Seq<char>, v: Seq<char>| u != v ==> (gs.last().same(u, v) <==> reaches(both_ways(ps), u, v)),
    decreases ps.len(),
{
    if ps.len() == 0 {
        assert forall|u: Seq<char>, v: Seq<char>| !reaches(both_ways(ps), u, v) by {
            if reaches(both_ways(ps), u, v) {
                let p = choose|p: Seq<Seq<char>>| #[trigger] is_path(both_ways(ps), p) && p[0] == u && p.last() == v;
                assert(both_ways(ps).contains((p[0], p[1])));
            }
        }
    } else {
        let n = ps.len() - 1;
        let g0 = gs[n];
        let g1 = gs[n + 1];
        let gs0 = gs.drop_last();
        let ps0 = ps.drop_last();
        assert forall|k: int| 0 <= k < ps0.len() implies same_added(#[trigger] gs0[k], gs0[k + 1], ps0[k].0, ps0[k].1) by {
            assert(gs0[k] == gs[k] && gs0[k + 1] == gs[k + 1] && ps0[k] == ps[k]);
        }
        assert forall|k: int| 0 <= k < gs0.len() implies #[trigger] gs0[k].wf() by {
            assert(gs0[k] == gs[k]);
        }
        law_same_individual_closure(gs0, ps0);
        assert(gs0.last() == g0);
        assert(gs[n].wf() && gs[n + 1].wf());
        assert(same_added(gs[n], gs[n + 1], ps[n].0, ps[n].1));
        lemma_both_ways_push(ps);
        lemma_same_step(g0, g1, ps.last().0, ps.last().1, both_ways(ps0), both_ways(ps));
    }
}

/// A completion graph clashes where an individual is labelled both
/// owl:Thing and owl:Nothing, where an individual is labelled both a class
/// and its complement, and where two different individuals are the same
/// and stated to be different; a graph with no labels and no two
/// individuals the same does not clash.
pub proof fn law_dl_clash_cases(g: DlCompletionGraph, i: Seq<char>, c: ClassExpressionV, a: Seq<char>, b: Seq<char>)
    ensures
        g.labeled(i, ClassExpressionV::Thing) && g.labeled(i, ClassExpressionV::Nothing) ==> g.has_clash(),
        g.labeled(i, c) && g.labeled(i, ClassExpressionV::ComplementOf(Box::new(c))) ==> g.has_clash(),
        a != b && g.same(a, b) && g.different(a, b) ==> g.has_clash(),
        (forall|x: Seq<char>, y: ClassExpressionV| !#[trigger] g.labeled(x, y))
            && (forall|x: Seq<char>, y: Seq<char>| !#[trigger] g.same(x, y)) ==> !g.has_clash(),
{
}

/// Reading a label back after writing it: once `add_label` has put `c` on
/// `i`, `has_label` answers true for them, and every earlier label stays.
pub proof fn law_label_after_add(g0: DlCompletionGraph, g1: DlCompletionGraph, i: Seq<char>, c: ClassExpressionV)
    requires
        forall|x: Seq<char>, y: ClassExpressionV| #[trigger] g1.labeled(x, y) <==> (g0.labeled(x, y) || (x == i && y == c)),
    ensures
        g1.labeled(i, c),
        forall|x: Seq<char>, y: ClassExpressionV| g0.labeled(x, y) ==> #[trigger] g1.labeled(x, y),
{
    assert(g1.labeled(i, c));
}

} // verus!
