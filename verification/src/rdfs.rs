//! RDFS reasoner: the transitive closures of rdfs:subClassOf and
//! rdfs:subPropertyOf, and rdf:type inferred from rdfs:domain,
//! rdfs:range and the class hierarchy.

pub mod vocabulary;

use vstd::prelude::*;
use crate::model::{Triple, TripleView, triples_view};
use crate::rdf_store::RdfStore;
use crate::closure::{GraphNode, reaches};
use crate::hierarchy::{in_hier, has_key, hier_wf, hier_edges, hier_add, hier_close};
use crate::text::{decimal, decimal_spec, join, usize_to_u64};
use vstd::string::StringExecFns;
use vocabulary::{subclass_of_iri, subproperty_of_iri, domain_iri, range_iri, type_iri};

verus! {

/// RDF IRI.
#[derive(Debug, Eq, Hash)]
pub struct Iri(pub String);

impl Iri {
    pub fn new(s: String) -> (r: Self)
        ensures
            r.0@ == s@,
    {
        Iri(s)
    }

    pub fn as_str(&self) -> (r: &str)
        ensures
            r@ == self.0@,
    {
        self.0.as_str()
    }
}

impl Clone for Iri {
    fn clone(&self) -> (r: Self)
        ensures
            r.0@ == self.0@,
    {
        Iri(self.0.clone())
    }
}

impl PartialEq for Iri {
    fn eq(&self, other: &Self) -> (r: bool) {
        self.0 == other.0
    }
}

impl vstd::std_specs::cmp::PartialEqSpecImpl for Iri {
    open spec fn obeys_eq_spec() -> bool {
        true
    }

    open spec fn eq_spec(&self, other: &Iri) -> bool {
        self.0@ == other.0@
    }
}

impl GraphNode for Iri {
    type V = Seq<char>;

    open spec fn node_view(&self) -> Seq<char> {
        self.0@
    }

    fn same_node(&self, other: &Self) -> (r: bool) {
        self.0 == other.0
    }

    fn copy_node(&self) -> (r: Self) {
        Iri(self.0.clone())
    }
}

/// The triple (s, p, o).
pub open spec fn tv(s: Seq<char>, p: Seq<char>, o: Seq<char>) -> TripleView {
    TripleView { subject: s, predicate: p, object: o }
}

/// Some triple of `ts` has predicate `pred`, subject `a` and object `b`.
pub open spec fn states(ts: Seq<TripleView>, pred: Seq<char>, a: Seq<char>, b: Seq<char>) -> bool {
    exists|i: int| 0 <= i < ts.len() && #[trigger] ts[i] == tv(a, pred, b)
}

/// The value of a single-valued constraint map after reading `ts` in
/// order: the last statement `p pred o` wins.
pub open spec fn constraint_after(old: Option<Seq<char>>, ts: Seq<TripleView>, pred: Seq<char>, p: Seq<char>) -> Option<Seq<char>>
    decreases ts.len(),
{
    if ts.len() == 0 {
        old
    } else if ts.last().predicate == pred && ts.last().subject == p {
        Some(ts.last().object)
    } else {
        constraint_after(old, ts.drop_last(), pred, p)
    }
}

/// The class of property `p` in a constraint map.
pub open spec fn constraint_of(m: Seq<(Iri, Iri)>, p: Seq<char>) -> Option<Seq<char>> {
    if exists|k: int| 0 <= k < m.len() && m[k].0.0@ == p {
        let k = choose|k: int| 0 <= k < m.len() && m[k].0.0@ == p;
        Some(m[k].1.0@)
    } else {
        None
    }
}

/// Keys of a constraint map are distinct.
pub open spec fn map_wf(m: Seq<(Iri, Iri)>) -> bool {
    forall|i: int, j: int| 0 <= i < j < m.len() ==> m[i].0.0@ != m[j].0.0@
}

/// The triples of a sequence, as a set.
pub open spec fn triple_set(v: Seq<Triple>) -> Set<TripleView> {
    triples_view(v).to_set()
}

/// No triple occurs twice.
pub open spec fn triples_distinct(v: Seq<Triple>) -> bool {
    forall|i: int, j: int| 0 <= i < j < v.len() ==> v[i]@ != v[j]@
}

/// The subClassOf (or subPropertyOf) triples of a closed hierarchy, self
/// pairs left out.
pub open spec fn hierarchy_triples(h: Seq<(Iri, Vec<Iri>)>, pred: Seq<char>) -> Set<TripleView> {
    Set::new(|t: TripleView| t.predicate == pred && t.subject != t.object && in_hier(h, t.subject, t.object))
}

/// rdf:type triples for the subjects (use_object false) or objects (true)
/// of the triples whose predicate has a class in the constraint map.
pub open spec fn constraint_types(m: Seq<(Iri, Iri)>, ts: Seq<TripleView>, use_object: bool) -> Set<TripleView> {
    Set::new(|t: TripleView| exists|i: int| 0 <= i < ts.len() && #[trigger] constraint_of(m, ts[i].predicate) is Some
        && t == tv(if use_object { ts[i].object } else { ts[i].subject }, type_iri(), constraint_of(m, ts[i].predicate)->0))
}

/// rdf:type triples propagated up the class hierarchy.
pub open spec fn hierarchy_types(h: Seq<(Iri, Vec<Iri>)>, ts: Seq<TripleView>) -> Set<TripleView> {
    Set::new(|t: TripleView| t.predicate == type_iri() && exists|i: int| 0 <= i < ts.len() && #[trigger] ts[i].predicate == type_iri()
        && ts[i].subject == t.subject && in_hier(h, ts[i].object, t.object))
}

/// A reasoner that knows nothing.
pub open spec fn knows_nothing(r: RdfsReasoner) -> bool {
    &&& r.wf()
    &&& r.class_h().len() == 0
    &&& r.property_h().len() == 0
    &&& r.domain_map().len() == 0
    &&& r.range_map().len() == 0
    &&& r.inferred() == Set::<TripleView>::empty()
}

/// Computing the closure of a store takes reasoner `a` to `b` and returns
/// `out`: `b` knows the hierarchies and constraints that `a` knew and the
/// store states, closed under transitivity, with an entry for each class
/// (property) that `a` had one for or that the store states a parent of,
/// and `out` lists each triple it infers once.
pub open spec fn closure_step(a: RdfsReasoner, b: RdfsReasoner, ts: Seq<TripleView>, out: Seq<Triple>) -> bool {
    &&& b.wf()
    &&& triples_distinct(out)
    &&& triple_set(out) == b.inferred()
    &&& b.inferred() == a.inferred()
        + hierarchy_triples(b.class_h(), subclass_of_iri())
        + hierarchy_triples(b.property_h(), subproperty_of_iri())
        + constraint_types(b.domain_map(), ts, false)
        + constraint_types(b.range_map(), ts, true)
        + hierarchy_types(b.class_h(), ts)
    &&& forall|x: Seq<char>| has_key(b.class_h(), x) <==>
        (has_key(a.class_h(), x) || exists|o: Seq<char>| states(ts, subclass_of_iri(), x, o))
    &&& forall|x: Seq<char>| has_key(b.property_h(), x) <==>
        (has_key(a.property_h(), x) || exists|o: Seq<char>| states(ts, subproperty_of_iri(), x, o))
    &&& forall|x: Seq<char>, y: Seq<char>| in_hier(b.class_h(), x, y) <==>
        (has_key(a.class_h(), x) || exists|o: Seq<char>| states(ts, subclass_of_iri(), x, o))
        && reaches(loaded_edges(a.class_h(), ts, subclass_of_iri()), x, y)
    &&& forall|x: Seq<char>, y: Seq<char>| in_hier(b.property_h(), x, y) <==>
        (has_key(a.property_h(), x) || exists|o: Seq<char>| states(ts, subproperty_of_iri(), x, o))
        && reaches(loaded_edges(a.property_h(), ts, subproperty_of_iri()), x, y)
    &&& forall|p: Seq<char>| b.domain_of(p) == constraint_after(a.domain_of(p), ts, domain_iri(), p)
    &&& forall|p: Seq<char>| b.range_of(p) == constraint_after(a.range_of(p), ts, range_iri(), p)
}

/// RDFS reasoner.
#[derive(Debug)]
pub struct RdfsReasoner {
    /// Class hierarchy: child class -> parent classes.
    pub class_hierarchy: Vec<(Iri, Vec<Iri>)>,
    /// Property hierarchy: child property -> parent properties.
    pub property_hierarchy: Vec<(Iri, Vec<Iri>)>,
    /// Domain constraints: property -> class.
    domain_constraints: Vec<(Iri, Iri)>,
    /// Range constraints: property -> class.
    range_constraints: Vec<(Iri, Iri)>,
    /// The inferred triples, each once.
    inferred_triples: Vec<Triple>,
}

impl RdfsReasoner {
    pub closed spec fn class_h(&self) -> Seq<(Iri, Vec<Iri>)> {
        self.class_hierarchy@
    }

    pub closed spec fn property_h(&self) -> Seq<(Iri, Vec<Iri>)> {
        self.property_hierarchy@
    }

    pub closed spec fn domain_of(&self, p: Seq<char>) -> Option<Seq<char>> {
        constraint_of(self.domain_constraints@, p)
    }

    pub closed spec fn range_of(&self, p: Seq<char>) -> Option<Seq<char>> {
        constraint_of(self.range_constraints@, p)
    }

    pub closed spec fn domain_map(&self) -> Seq<(Iri, Iri)> {
        self.domain_constraints@
    }

    pub closed spec fn range_map(&self) -> Seq<(Iri, Iri)> {
        self.range_constraints@
    }

    /// The inferred triples.
    pub closed spec fn inferred(&self) -> Set<TripleView> {
        triple_set(self.inferred_triples@)
    }

    pub closed spec fn wf(&self) -> bool {
        &&& hier_wf(self.class_hierarchy@)
        &&& hier_wf(self.property_hierarchy@)
        &&& map_wf(self.domain_constraints@)
        &&& map_wf(self.range_constraints@)
        &&& triples_distinct(self.inferred_triples@)
    }

    /// A reasoner that knows nothing yet.
    pub fn new() -> (r: Self)
        ensures
            knows_nothing(r),
    {
        let r = RdfsReasoner {
            class_hierarchy: Vec::new(),
            property_hierarchy: Vec::new(),
            domain_constraints: Vec::new(),
            range_constraints: Vec::new(),
            inferred_triples: Vec::new(),
        };
        proof {
            assert(triples_view(r.inferred_triples@) =~= Seq::<TripleView>::empty());
            assert(r.inferred() =~= Set::<TripleView>::empty());
        }
        r
    }

    /// Read the RDFS knowledge of a store, then compute the closures and
    /// every inference; the result lists each inferred triple once.
    pub fn compute_closure(&mut self, store: &RdfStore) -> (r: Result<Vec<Triple>, RdfsError>)
        requires
            old(self).wf(),
        ensures
            r is Ok,
            closure_step(*old(self), *final(self), store.view_triples(), r->Ok_0@),
    {
        let ghost h0 = self.class_h();
        let ghost p0 = self.property_h();
        self.load_knowledge(store);
        let ghost h1 = self.class_h();
        let ghost p1 = self.property_h();
        proof {
            lemma_loaded_edges_same_reach(h0, h1, store.view_triples(), subclass_of_iri());
            lemma_loaded_edges_same_reach(p0, p1, store.view_triples(), subproperty_of_iri());
        }
        let ghost s1 = *self;
        let ghost d1 = self.domain_map();
        let ghost r1 = self.range_map();
        self.compute_transitive_closure();
        self.infer_types_and_constraints(store);
        let out = crate::model::clone_triples(&self.inferred_triples);
        proof {
            assert(self.domain_map() == d1);
            assert(self.range_map() == r1);
            assert forall|p: Seq<char>| self.domain_of(p) == constraint_after(old(self).domain_of(p), store.view_triples(), domain_iri(), p) by {
                assert(self.domain_of(p) == s1.domain_of(p));
            }
            assert forall|p: Seq<char>| self.range_of(p) == constraint_after(old(self).range_of(p), store.view_triples(), range_iri(), p) by {
                assert(self.range_of(p) == s1.range_of(p));
            }
        }
        proof {
            let iv = self.inferred_triples@;
            assert(triples_view(out@) == triples_view(iv));
            assert(out@.len() == iv.len()) by {
                assert(triples_view(out@).len() == out@.len());
                assert(triples_view(iv).len() == iv.len());
            }
            assert forall|i: int, j: int| 0 <= i < j < out@.len() implies out@[i]@ != out@[j]@ by {
                assert(triples_view(out@)[i] == out@[i]@);
                assert(triples_view(out@)[j] == out@[j]@);
                assert(triples_view(iv)[i] == iv[i]@);
                assert(triples_view(iv)[j] == iv[j]@);
                assert(iv[i]@ != iv[j]@);
            }
        }
        Ok(out)
    }

    /// Read rdfs:subClassOf, rdfs:subPropertyOf, rdfs:domain and rdfs:range
    /// statements from a store.
#[verifier::loop_isolation(false)]
    pub fn load_knowledge(&mut self, store: &RdfStore)
        requires
            old(self).wf(),
        ensures
            final(self).wf(),
            final(self).inferred() == old(self).inferred(),
            forall|a: Seq<char>| has_key(final(self).class_h(), a) <==> (has_key(old(self).class_h(), a) || exists|o: Seq<char>| states(store.view_triples(), subclass_of_iri(), a, o)),
            forall|a: Seq<char>, b: Seq<char>| in_hier(final(self).class_h(), a, b) <==> (in_hier(old(self).class_h(), a, b) || states(store.view_triples(), subclass_of_iri(), a, b)),
            forall|a: Seq<char>| has_key(final(self).property_h(), a) <==> (has_key(old(self).property_h(), a) || exists|o: Seq<char>| states(store.view_triples(), subproperty_of_iri(), a, o)),
            forall|a: Seq<char>, b: Seq<char>| in_hier(final(self).property_h(), a, b) <==> (in_hier(old(self).property_h(), a, b) || states(store.view_triples(), subproperty_of_iri(), a, b)),
            forall|p: Seq<char>| final(self).domain_of(p) == constraint_after(old(self).domain_of(p), store.view_triples(), domain_iri(), p),
            forall|p: Seq<char>| final(self).range_of(p) == constraint_after(old(self).range_of(p), store.view_triples(), range_iri(), p),
    {
        let triples = store.all_triples();
        let ghost ts = store.view_triples();
        let sub = vocabulary::rdfs_subclass_of();
        let subp = vocabulary::rdfs_subproperty_of();
        let dom = vocabulary::rdfs_domain();
        let ran = vocabulary::rdfs_range();
        let mut i: usize = 0;
        while i < triples.len()
            invariant
                i <= triples@.len(),
                ts == triples_view(triples@),
                sub.0@ == subclass_of_iri(),
                subp.0@ == subproperty_of_iri(),
                dom.0@ == domain_iri(),
                ran.0@ == range_iri(),
                self.wf(),
                self.inferred() == old(self).inferred(),
                forall|a: Seq<char>| has_key(self.class_h(), a) <==> (has_key(old(self).class_h(), a) || exists|o: Seq<char>| states(ts.take(i as int), subclass_of_iri(), a, o)),
                forall|a: Seq<char>, b: Seq<char>| in_hier(self.class_h(), a, b) <==> (in_hier(old(self).class_h(), a, b) || states(ts.take(i as int), subclass_of_iri(), a, b)),
                forall|a: Seq<char>| has_key(self.property_h(), a) <==> (has_key(old(self).property_h(), a) || exists|o: Seq<char>| states(ts.take(i as int), subproperty_of_iri(), a, o)),
                forall|a: Seq<char>, b: Seq<char>| in_hier(self.property_h(), a, b) <==> (in_hier(old(self).property_h(), a, b) || states(ts.take(i as int), subproperty_of_iri(), a, b)),
                forall|p: Seq<char>| self.domain_of(p) == constraint_after(old(self).domain_of(p), ts.take(i as int), domain_iri(), p),
                forall|p: Seq<char>| self.range_of(p) == constraint_after(old(self).range_of(p), ts.take(i as int), range_iri(), p),
            decreases triples.len() - i,
        {
            let t = &triples[i];
            let ghost tv0 = t@;
            proof {
                assert(ts[i as int] == tv0);
                assert(ts.take(i + 1) =~= ts.take(i as int).push(tv0));
                assert(ts.take(i + 1).drop_last() =~= ts.take(i as int));
                lemma_states_push(ts.take(i as int), tv0);
            }
            let ghost c0 = self.class_h();
            let ghost p0 = self.property_h();
            let ghost d0 = self.domain_map();
            let ghost r0 = self.range_map();
            let ghost ti = ts.take(i as int);
            let ghost ti1 = ts.take(i + 1);
            let ghost self0 = *self;
            if t.predicate == sub.0 {
                hier_add(&mut self.class_hierarchy, Iri(t.subject.clone()), Iri(t.object.clone()));
            }
            if t.predicate == subp.0 {
                hier_add(&mut self.property_hierarchy, Iri(t.subject.clone()), Iri(t.object.clone()));
            }
            if t.predicate == dom.0 {
                map_insert(&mut self.domain_constraints, Iri(t.subject.clone()), Iri(t.object.clone()));
            }
            if t.predicate == ran.0 {
                map_insert(&mut self.range_constraints, Iri(t.subject.clone()), Iri(t.object.clone()));
            }
            proof {
                lemma_load_step(c0, self.class_h(), ti, tv0, subclass_of_iri(), old(self).class_h());
                lemma_load_step(p0, self.property_h(), ti, tv0, subproperty_of_iri(), old(self).property_h());
                assert forall|p: Seq<char>| constraint_of(self.domain_map(), p) == constraint_after(old(self).domain_of(p), ti1, domain_iri(), p) by {
                    assert(ti1.len() > 0);
                    assert(ti1.last() == tv0);
                    assert(ti1.drop_last() == ti);
                    assert(self0.domain_of(p) == constraint_after(old(self).domain_of(p), ti, domain_iri(), p));
                    assert(self0.domain_of(p) == constraint_of(d0, p));
                }
                assert forall|p: Seq<char>| constraint_of(self.range_map(), p) == constraint_after(old(self).range_of(p), ti1, range_iri(), p) by {
                    assert(ti1.len() > 0);
                    assert(ti1.last() == tv0);
                    assert(ti1.drop_last() == ti);
                    assert(self0.range_of(p) == constraint_after(old(self).range_of(p), ti, range_iri(), p));
                    assert(self0.range_of(p) == constraint_of(r0, p));
                }
            }
            i += 1;
        }
        proof {
            assert(ts.take(ts.len() as int) =~= ts);
        }
    }

    /// Close both hierarchies transitively and record their subClassOf and
    /// subPropertyOf triples (self pairs left out).
    pub fn compute_transitive_closure(&mut self)
        requires
            old(self).wf(),
        ensures
            final(self).wf(),
            forall|a: Seq<char>| has_key(final(self).class_h(), a) <==> has_key(old(self).class_h(), a),
            forall|a: Seq<char>, b: Seq<char>| in_hier(final(self).class_h(), a, b) <==> (has_key(old(self).class_h(), a) && reaches(hier_edges(old(self).class_h()), a, b)),
            forall|a: Seq<char>| has_key(final(self).property_h(), a) <==> has_key(old(self).property_h(), a),
            forall|a: Seq<char>, b: Seq<char>| in_hier(final(self).property_h(), a, b) <==> (has_key(old(self).property_h(), a) && reaches(hier_edges(old(self).property_h()), a, b)),
            final(self).domain_map() == old(self).domain_map(),
            final(self).range_map() == old(self).range_map(),
            final(self).inferred() == old(self).inferred()
                + hierarchy_triples(final(self).class_h(), subclass_of_iri())
                + hierarchy_triples(final(self).property_h(), subproperty_of_iri()),
    {
        let mut closed_classes: Vec<(Iri, Vec<Iri>)> = Vec::new();
        Self::compute_hierarchy_closure(&self.class_hierarchy, &mut closed_classes);
        self.class_hierarchy = closed_classes;
        let mut closed_properties: Vec<(Iri, Vec<Iri>)> = Vec::new();
        Self::compute_hierarchy_closure(&self.property_hierarchy, &mut closed_properties);
        self.property_hierarchy = closed_properties;
        let ghost start = self.inferred();
        let sub = vocabulary::rdfs_subclass_of();
        add_hierarchy_triples(&mut self.inferred_triples, &self.class_hierarchy, &sub.0);
        let subp = vocabulary::rdfs_subproperty_of();
        add_hierarchy_triples(&mut self.inferred_triples, &self.property_hierarchy, &subp.0);
        proof {
            assert(self.inferred() =~= start + hierarchy_triples(self.class_h(), subclass_of_iri()) + hierarchy_triples(self.property_h(), subproperty_of_iri()));
        }
    }

    /// Write into `output` the transitive closure of `input`: each key of
    /// `input` with every node reachable from it in one or more steps.
    pub fn compute_hierarchy_closure(input: &Vec<(Iri, Vec<Iri>)>, output: &mut Vec<(Iri, Vec<Iri>)>)
        requires
            hier_wf(input@),
        ensures
            hier_wf(final(output)@),
            forall|a: Seq<char>| has_key(final(output)@, a) <==> has_key(input@, a),
            forall|a: Seq<char>, b: Seq<char>| in_hier(final(output)@, a, b) <==> (has_key(input@, a) && reaches(hier_edges(input@), a, b)),
    {
        *output = hier_close(input);
    }

    /// Infer rdf:type from domain and range constraints and up the class
    /// hierarchy.
    pub fn infer_types_and_constraints(&mut self, store: &RdfStore)
        requires
            old(self).wf(),
        ensures
            final(self).wf(),
            final(self).class_h() == old(self).class_h(),
            final(self).property_h() == old(self).property_h(),
            final(self).domain_map() == old(self).domain_map(),
            final(self).range_map() == old(self).range_map(),
            final(self).inferred() == old(self).inferred()
                + constraint_types(old(self).domain_map(), store.view_triples(), false)
                + constraint_types(old(self).range_map(), store.view_triples(), true)
                + hierarchy_types(old(self).class_h(), store.view_triples()),
    {
        let triples = store.all_triples();
        let ty = vocabulary::rdf_type();
        let ghost s0 = self.inferred();
        add_constraint_types(&mut self.inferred_triples, &self.domain_constraints, triples, &ty.0, false);
        add_constraint_types(&mut self.inferred_triples, &self.range_constraints, triples, &ty.0, true);
        add_hierarchy_types(&mut self.inferred_triples, &self.class_hierarchy, triples, &ty.0);
    }

    /// The inferred triples, each once.
    pub fn get_inferred_triples(&self) -> (r: &Vec<Triple>)
        requires
            self.wf(),
        ensures
            triple_set(r@) == self.inferred(),
            triples_distinct(r@),
    {
        &self.inferred_triples
    }

    /// The class hierarchy: each class with the classes above it.
    pub fn get_class_hierarchy(&self) -> (r: &Vec<(Iri, Vec<Iri>)>)
        ensures
            r@ == self.class_h(),
    {
        &self.class_hierarchy
    }

    /// The property hierarchy: each property with the properties above it.
    pub fn get_property_hierarchy(&self) -> (r: &Vec<(Iri, Vec<Iri>)>)
        ensures
            r@ == self.property_h(),
    {
        &self.property_hierarchy
    }
}

/// The pairs of a hierarchy after `ts` was read into it.
pub open spec fn loaded_edges(h: Seq<(Iri, Vec<Iri>)>, ts: Seq<TripleView>, pred: Seq<char>) -> Seq<(Seq<char>, Seq<char>)> {
    hier_edges(h) + ts.filter(|t: TripleView| t.predicate == pred).map_values(|t: TripleView| (t.subject, t.object))
}

/// Two hierarchies with the same pairs have the same reachability as the
/// pairs of the first plus the statements read.
proof fn lemma_loaded_edges_same_reach(h0: Seq<(Iri, Vec<Iri>)>, h1: Seq<(Iri, Vec<Iri>)>, ts: Seq<TripleView>, pred: Seq<char>)
    requires
        forall|a: Seq<char>, b: Seq<char>| in_hier(h1, a, b) <==> (in_hier(h0, a, b) || states(ts, pred, a, b)),
    ensures
        forall|a: Seq<char>, b: Seq<char>| reaches(hier_edges(h1), a, b) <==> reaches(loaded_edges(h0, ts, pred), a, b),
{
    let e1 = hier_edges(h1);
    let e2 = loaded_edges(h0, ts, pred);
    let f = ts.filter(|t: TripleView| t.predicate == pred);
    let m = f.map_values(|t: TripleView| (t.subject, t.object));
    assert forall|a: Seq<char>, b: Seq<char>| e1.contains((a, b)) <==> e2.contains((a, b)) by {
        crate::hierarchy::lemma_hier_edges_contains(h1, a, b);
        crate::hierarchy::lemma_hier_edges_contains(h0, a, b);
        let e0 = hier_edges(h0);
        if e2.contains((a, b)) {
            let i = choose|i: int| 0 <= i < e2.len() && e2[i] == (a, b);
            if i >= e0.len() {
                let j = i - e0.len();
                assert(m[j] == (a, b));
                assert(f.contains(f[j]));
                ts.lemma_filter_contains_rev(|t: TripleView| t.predicate == pred, f[j]);
                let w = choose|w: int| 0 <= w < ts.len() && ts[w] == f[j];
                assert(ts[w] == tv(a, pred, b));
            } else {
                assert(e0[i] == (a, b));
            }
        }
        if states(ts, pred, a, b) {
            let w = choose|w: int| 0 <= w < ts.len() && #[trigger] ts[w] == tv(a, pred, b);
            ts.filter_lemma(|t: TripleView| t.predicate == pred);
            assert(f.contains(ts[w]));
            let j = choose|j: int| 0 <= j < f.len() && f[j] == ts[w];
            assert(m[j] == (a, b));
            assert(e2[e0.len() + j] == (a, b));
        }
        if in_hier(h0, a, b) {
            let i = choose|i: int| 0 <= i < e0.len() && e0[i] == (a, b);
            assert(e2[i] == (a, b));
        }
    }
    crate::closure::lemma_same_edges_same_reach(e1, e2);
}

proof fn lemma_states_push(ts: Seq<TripleView>, t: TripleView)
    ensures
        forall|pred: Seq<char>, a: Seq<char>, b: Seq<char>| states(ts.push(t), pred, a, b) <==> (states(ts, pred, a, b) || t == tv(a, pred, b)),
{
    assert forall|pred: Seq<char>, a: Seq<char>, b: Seq<char>| states(ts.push(t), pred, a, b) <==> (states(ts, pred, a, b) || t == tv(a, pred, b)) by {
        let n = ts.push(t);
        if states(ts, pred, a, b) {
            let i = choose|i: int| 0 <= i < ts.len() && #[trigger] ts[i] == tv(a, pred, b);
            assert(n[i] == ts[i]);
        }
        if t == tv(a, pred, b) {
            assert(n[ts.len() as int] == t);
        }
        if states(n, pred, a, b) {
            let i = choose|i: int| 0 <= i < n.len() && #[trigger] n[i] == tv(a, pred, b);
            if i < ts.len() {
                assert(ts[i] == n[i]);
            }
        }
    }
}

/// Position of the entry for `p`.
fn map_find(m: &Vec<(Iri, Iri)>, p: &Iri) -> (r: Option<usize>)
    ensures
        match r {
            Some(k) => k < m@.len() && m@[k as int].0.0@ == p.0@,
            None => forall|k: int| 0 <= k < m@.len() ==> m@[k].0.0@ != p.0@,
        },
{
    let mut i: usize = 0;
    while i < m.len()
        invariant
            i <= m@.len(),
            forall|j: int| 0 <= j < i ==> m@[j].0.0@ != p.0@,
        decreases m.len() - i,
    {
        if m[i].0.0 == p.0 {
            return Some(i);
        }
        i += 1;
    }
    None
}

/// One triple read into a hierarchy keeps the loading invariant.
proof fn lemma_load_step(h0: Seq<(Iri, Vec<Iri>)>, h1: Seq<(Iri, Vec<Iri>)>, ti: Seq<TripleView>, t: TripleView, pred: Seq<char>, orig: Seq<(Iri, Vec<Iri>)>)
    requires
        forall|a: Seq<char>| has_key(h0, a) <==> (has_key(orig, a) || exists|o: Seq<char>| states(ti, pred, a, o)),
        forall|a: Seq<char>, b: Seq<char>| in_hier(h0, a, b) <==> (in_hier(orig, a, b) || states(ti, pred, a, b)),
        t.predicate == pred ==> (forall|a: Seq<char>| has_key(h1, a) <==> (has_key(h0, a) || a == t.subject)),
        t.predicate == pred ==> (forall|a: Seq<char>, b: Seq<char>| in_hier(h1, a, b) <==> (in_hier(h0, a, b) || (a == t.subject && b == t.object))),
        t.predicate != pred ==> h1 == h0,
    ensures
        forall|a: Seq<char>| has_key(h1, a) <==> (has_key(orig, a) || exists|o: Seq<char>| states(ti.push(t), pred, a, o)),
        forall|a: Seq<char>, b: Seq<char>| in_hier(h1, a, b) <==> (in_hier(orig, a, b) || states(ti.push(t), pred, a, b)),
{
    lemma_states_push(ti, t);
    let n = ti.push(t);
    assert(n[ti.len() as int] == t);
    assert(t == tv(t.subject, t.predicate, t.object));
    assert forall|a: Seq<char>| has_key(h1, a) <==> (has_key(orig, a) || exists|o: Seq<char>| states(n, pred, a, o)) by {
        if exists|o: Seq<char>| states(n, pred, a, o) {
            let o = choose|o: Seq<char>| states(n, pred, a, o);
            if !states(ti, pred, a, o) {
                assert(t == tv(a, pred, o));
            } else {
                assert(exists|o2: Seq<char>| states(ti, pred, a, o2));
            }
        }
        if exists|o: Seq<char>| states(ti, pred, a, o) {
            let o = choose|o: Seq<char>| states(ti, pred, a, o);
            assert(states(n, pred, a, o));
        }
        if t.predicate == pred && a == t.subject {
            assert(states(n, pred, a, t.object));
        }
    }
    assert forall|a: Seq<char>, b: Seq<char>| in_hier(h1, a, b) <==> (in_hier(orig, a, b) || states(n, pred, a, b)) by {
        assert(states(n, pred, a, b) <==> (states(ti, pred, a, b) || t == tv(a, pred, b)));
        if t.predicate == pred {
            assert((a == t.subject && b == t.object) <==> t == tv(a, pred, b));
        } else {
            assert(t != tv(a, pred, b));
        }
    }
}

/// Set `p`'s class to `c`, replacing any class it had.
fn map_insert(m: &mut Vec<(Iri, Iri)>, p: Iri, c: Iri)
    requires
        map_wf(old(m)@),
    ensures
        map_wf(final(m)@),
        forall|q: Seq<char>| constraint_of(final(m)@, q) == if q == p.0@ { Some(c.0@) } else { constraint_of(old(m)@, q) },
{
    let ghost old_m = m@;
    let pos = map_find(m, &p);
    if let Some(i) = pos {
        m.set(i, (p, c));
        proof {
            assert forall|a: int, b: int| 0 <= a < b < m@.len() implies m@[a].0.0@ != m@[b].0.0@ by {
                assert(m@[a].0.0@ == old_m[a].0.0@);
                assert(m@[b].0.0@ == old_m[b].0.0@);
            }
            assert forall|q: Seq<char>| constraint_of(m@, q) == if q == p.0@ { Some(c.0@) } else { constraint_of(old_m, q) } by {
                lemma_constraint_at(m@, i as int);
                if q != p.0@ {
                    lemma_constraint_same(m@, old_m, q, i as int);
                }
            }
        }
    } else {
        m.push((p, c));
        proof {
            let k = old_m.len() as int;
            assert forall|a: int, b: int| 0 <= a < b < m@.len() implies m@[a].0.0@ != m@[b].0.0@ by {
                assert(m@[a] == old_m[a]);
                if b < k { assert(m@[b] == old_m[b]); }
            }
            assert forall|q: Seq<char>| constraint_of(m@, q) == if q == p.0@ { Some(c.0@) } else { constraint_of(old_m, q) } by {
                lemma_constraint_at(m@, k);
                if q != p.0@ {
                    if exists|j: int| 0 <= j < old_m.len() && old_m[j].0.0@ == q {
                        let j = choose|j: int| 0 <= j < old_m.len() && old_m[j].0.0@ == q;
                        assert(m@[j] == old_m[j]);
                        lemma_constraint_at(m@, j);
                        lemma_constraint_at(old_m, j);
                    }
                    if exists|j: int| 0 <= j < m@.len() && m@[j].0.0@ == q {
                        let j = choose|j: int| 0 <= j < m@.len() && m@[j].0.0@ == q;
                        assert(j < k);
                        assert(old_m[j] == m@[j]);
                    }
                }
            }
        }
    }
}

proof fn lemma_constraint_at(m: Seq<(Iri, Iri)>, k: int)
    requires
        map_wf(m),
        0 <= k < m.len(),
    ensures
        constraint_of(m, m[k].0.0@) == Some(m[k].1.0@),
{
    let q = m[k].0.0@;
    let c = choose|c: int| 0 <= c < m.len() && m[c].0.0@ == q;
    if c != k {
        if c < k { assert(m[c].0.0@ != m[k].0.0@); } else { assert(m[k].0.0@ != m[c].0.0@); }
    }
}

proof fn lemma_constraint_same(m: Seq<(Iri, Iri)>, old_m: Seq<(Iri, Iri)>, q: Seq<char>, k: int)
    requires
        map_wf(m),
        map_wf(old_m),
        m.len() == old_m.len(),
        0 <= k < m.len(),
        forall|j: int| 0 <= j < m.len() && j != k ==> m[j] == old_m[j],
        m[k].0.0@ == old_m[k].0.0@,
        q != m[k].0.0@,
    ensures
        constraint_of(m, q) == constraint_of(old_m, q),
{
    if exists|j: int| 0 <= j < old_m.len() && old_m[j].0.0@ == q {
        let j = choose|j: int| 0 <= j < old_m.len() && old_m[j].0.0@ == q;
        assert(m[j] == old_m[j]);
        lemma_constraint_at(m, j);
        lemma_constraint_at(old_m, j);
    }
    if exists|j: int| 0 <= j < m.len() && m[j].0.0@ == q {
        let j = choose|j: int| 0 <= j < m.len() && m[j].0.0@ == q;
        assert(old_m[j] == m[j]);
    }
}

/// Add `t` to a duplicate-free list of triples unless it is there.
fn insert_triple(v: &mut Vec<Triple>, t: Triple)
    requires
        triples_distinct(old(v)@),
    ensures
        triples_distinct(final(v)@),
        triple_set(final(v)@) == triple_set(old(v)@).insert(t@),
{
    let ghost old_v = v@;
    if has_triple(v, &t) {
        proof {
            let j = choose|j: int| 0 <= j < v@.len() && v@[j]@ == t@;
            assert(triples_view(v@)[j] == t@);
            assert(triple_set(v@) =~= triple_set(v@).insert(t@));
        }
        return;
    }
    let ghost tv1 = t@;
    v.push(t);
    proof {
        assert(triples_view(v@) =~= triples_view(old_v).push(tv1));
        assert(triple_set(v@) =~= triple_set(old_v).insert(tv1)) by {
            assert forall|x: TripleView| triple_set(v@).contains(x) <==> triple_set(old_v).insert(tv1).contains(x) by {
                if triple_set(v@).contains(x) {
                    let j = choose|j: int| 0 <= j < triples_view(v@).len() && triples_view(v@)[j] == x;
                    if j < old_v.len() {
                        assert(triples_view(old_v)[j] == x);
                    }
                }
                if triple_set(old_v).contains(x) {
                    let j = choose|j: int| 0 <= j < triples_view(old_v).len() && triples_view(old_v)[j] == x;
                    assert(triples_view(v@)[j] == x);
                }
                if x == tv1 {
                    assert(triples_view(v@)[old_v.len() as int] == x);
                }
            }
        }
        assert forall|a: int, b: int| 0 <= a < b < v@.len() implies v@[a]@ != v@[b]@ by {
            assert(v@[a] == old_v[a]);
            if b < old_v.len() { assert(v@[b] == old_v[b]); }
        }
    }
}

/// Whether a list holds a triple equal to `t`.
fn has_triple(v: &Vec<Triple>, t: &Triple) -> (r: bool)
    ensures
        r == exists|j: int| 0 <= j < v@.len() && v@[j]@ == t@,
{
    let mut i: usize = 0;
    while i < v.len()
        invariant
            i <= v@.len(),
            forall|j: int| 0 <= j < i ==> v@[j]@ != t@,
        decreases v.len() - i,
    {
        if v[i] == *t {
            return true;
        }
        i += 1;
    }
    false
}

/// Record the triple (a, pred, b) for every pair of a closed hierarchy with
/// a different from b.
#[verifier::loop_isolation(false)]
fn add_hierarchy_triples(v: &mut Vec<Triple>, h: &Vec<(Iri, Vec<Iri>)>, pred: &String)
    requires
        triples_distinct(old(v)@),
        hier_wf(h@),
    ensures
        triples_distinct(final(v)@),
        triple_set(final(v)@) == triple_set(old(v)@) + hierarchy_triples(h@, pred@),
{
    let ghost start = triple_set(v@);
    let ghost target = hierarchy_triples(h@, pred@);
    let mut k: usize = 0;
    while k < h.len()
        invariant
            k <= h@.len(),
            hier_wf(h@),
            target == hierarchy_triples(h@, pred@),
            triples_distinct(v@),
            triple_set(v@) == start + Set::new(|t: TripleView| target.contains(t) && exists|q: int| 0 <= q < k && h@[q].0.0@ == t.subject),
        decreases h.len() - k,
    {
        let ghost before = triple_set(v@);
        let mut j: usize = 0;
        while j < h[k].1.len()
            invariant
                k < h@.len(),
                hier_wf(h@),
                j <= h@[k as int].1@.len(),
                triples_distinct(v@),
                triple_set(v@) == before + Set::new(|t: TripleView| t.predicate == pred@ && t.subject == h@[k as int].0.0@ && t.subject != t.object
                    && exists|q: int| 0 <= q < j && h@[k as int].1@[q].0@ == t.object),
            decreases h@[k as int].1@.len() - j,
        {
            let ghost b2 = triple_set(v@);
            if h[k].0.0 != h[k].1[j].0 {
                let t = Triple { subject: h[k].0.0.clone(), predicate: pred.clone(), object: h[k].1[j].0.clone() };
                insert_triple(v, t);
            }
            proof {
                assert(triple_set(v@) =~= before + Set::new(|t: TripleView| t.predicate == pred@ && t.subject == h@[k as int].0.0@ && t.subject != t.object
                    && exists|q: int| 0 <= q < j + 1 && h@[k as int].1@[q].0@ == t.object)) by {
                    assert forall|t: TripleView| #![auto] (exists|q: int| 0 <= q < j + 1 && h@[k as int].1@[q].0@ == t.object) <==> ((exists|q: int| 0 <= q < j && h@[k as int].1@[q].0@ == t.object) || h@[k as int].1@[j as int].0@ == t.object) by {
                        if exists|q: int| 0 <= q < j + 1 && h@[k as int].1@[q].0@ == t.object {
                            let q = choose|q: int| 0 <= q < j + 1 && h@[k as int].1@[q].0@ == t.object;
                            if q < j {
                            }
                        }
                    }
                }
            }
            j += 1;
        }
        proof {
            assert(triple_set(v@) =~= start + Set::new(|t: TripleView| target.contains(t) && exists|q: int| 0 <= q < k + 1 && h@[q].0.0@ == t.subject)) by {
                assert forall|t: TripleView| triple_set(v@).contains(t) <==> (start + Set::new(|t: TripleView| target.contains(t) && exists|q: int| 0 <= q < k + 1 && h@[q].0.0@ == t.subject)).contains(t) by {
                    let inner = t.predicate == pred@ && t.subject == h@[k as int].0.0@ && t.subject != t.object
                        && exists|q: int| 0 <= q < h@[k as int].1@.len() && h@[k as int].1@[q].0@ == t.object;
                    if inner {
                        let q = choose|q: int| 0 <= q < h@[k as int].1@.len() && h@[k as int].1@[q].0@ == t.object;
                        assert(crate::closure::node_views(h@[k as int].1@)[q] == t.object);
                        assert(crate::closure::node_views(h@[k as int].1@).contains(t.object));
                        assert(in_hier(h@, t.subject, t.object));
                    }
                    if target.contains(t) && h@[k as int].0.0@ == t.subject {
                        let q = choose|q: int| 0 <= q < h@.len() && h@[q].0.node_view() == t.subject && #[trigger] crate::closure::node_views(h@[q].1@).contains(t.object);
                        assert(q == k) by {
                            if q < k { assert(h@[q].0.node_view() != h@[k as int].0.node_view()); }
                            if q > k { assert(h@[k as int].0.node_view() != h@[q].0.node_view()); }
                        }
                        let w = choose|w: int| 0 <= w < crate::closure::node_views(h@[k as int].1@).len() && crate::closure::node_views(h@[k as int].1@)[w] == t.object;
                        assert(h@[k as int].1@[w].0@ == t.object);
                    }
                    if exists|q: int| 0 <= q < k + 1 && h@[q].0.0@ == t.subject {
                        let q = choose|q: int| 0 <= q < k + 1 && h@[q].0.0@ == t.subject;
                        if q < k {
                        }
                    }
                }
            }
        }
        k += 1;
    }
    proof {
        assert(triple_set(v@) =~= start + target) by {
            assert forall|t: TripleView| target.contains(t) implies exists|q: int| 0 <= q < h@.len() && h@[q].0.0@ == t.subject by {
                let q = choose|q: int| 0 <= q < h@.len() && h@[q].0.node_view() == t.subject && #[trigger] crate::closure::node_views(h@[q].1@).contains(t.object);
            }
        }
    }
}

/// Record rdf:type for the subject (or object) of every triple whose
/// predicate has a class in a constraint map.
#[verifier::loop_isolation(false)]
fn add_constraint_types(v: &mut Vec<Triple>, m: &Vec<(Iri, Iri)>, triples: &Vec<Triple>, ty: &String, use_object: bool)
    requires
        triples_distinct(old(v)@),
        map_wf(m@),
        ty@ == type_iri(),
    ensures
        triples_distinct(final(v)@),
        triple_set(final(v)@) == triple_set(old(v)@) + constraint_types(m@, triples_view(triples@), use_object),
{
    let ghost start = triple_set(v@);
    let ghost ts = triples_view(triples@);
    let mut k: usize = 0;
    while k < m.len()
        invariant
            k <= m@.len(),
            ts == triples_view(triples@),
            triples_distinct(v@),
            triple_set(v@) == start + Set::new(|t: TripleView| exists|q: int, i: int| 0 <= q < k && 0 <= i < ts.len() && #[trigger] m@[q].0.0@ == #[trigger] ts[i].predicate
                && t == tv(if use_object { ts[i].object } else { ts[i].subject }, type_iri(), m@[q].1.0@)),
        decreases m.len() - k,
    {
        let ghost before = triple_set(v@);
        let mut i: usize = 0;
        while i < triples.len()
            invariant
                k < m@.len(),
                i <= triples@.len(),
                ts == triples_view(triples@),
                triples_distinct(v@),
                triple_set(v@) == before + Set::new(|t: TripleView| exists|i2: int| 0 <= i2 < i && m@[k as int].0.0@ == #[trigger] ts[i2].predicate
                    && t == tv(if use_object { ts[i2].object } else { ts[i2].subject }, type_iri(), m@[k as int].1.0@)),
            decreases triples.len() - i,
        {
            let ghost b2 = triple_set(v@);
            let ghost new_t = tv(if use_object { ts[i as int].object } else { ts[i as int].subject }, type_iri(), m@[k as int].1.0@);
            let matched = triples[i].predicate == m[k].0.0;
            if matched {
                let who = if use_object { triples[i].object.clone() } else { triples[i].subject.clone() };
                let t = Triple { subject: who, predicate: ty.clone(), object: m[k].1.0.clone() };
                proof {
                    assert(ts[i as int] == triples@[i as int]@);
                    assert(t@ == new_t);
                }
                insert_triple(v, t);
            }
            proof {
                assert(ts[i as int] == triples@[i as int]@);
                let s_i = Set::new(|t: TripleView| exists|i2: int| 0 <= i2 < i && m@[k as int].0.0@ == #[trigger] ts[i2].predicate
                    && t == tv(if use_object { ts[i2].object } else { ts[i2].subject }, type_iri(), m@[k as int].1.0@));
                let s_i1 = Set::new(|t: TripleView| exists|i2: int| 0 <= i2 < i + 1 && m@[k as int].0.0@ == #[trigger] ts[i2].predicate
                    && t == tv(if use_object { ts[i2].object } else { ts[i2].subject }, type_iri(), m@[k as int].1.0@));
                assert(b2 == before + s_i);
                assert forall|t: TripleView| s_i1.contains(t) <==> (s_i.contains(t) || (matched && t == new_t)) by {
                    if s_i1.contains(t) {
                        let i2 = choose|i2: int| 0 <= i2 < i + 1 && m@[k as int].0.0@ == #[trigger] ts[i2].predicate
                            && t == tv(if use_object { ts[i2].object } else { ts[i2].subject }, type_iri(), m@[k as int].1.0@);
                        if i2 < i {
                            assert(s_i.contains(t));
                        }
                    }
                    if s_i.contains(t) {
                        let i2 = choose|i2: int| 0 <= i2 < i && m@[k as int].0.0@ == #[trigger] ts[i2].predicate
                            && t == tv(if use_object { ts[i2].object } else { ts[i2].subject }, type_iri(), m@[k as int].1.0@);
                        assert(m@[k as int].0.0@ == ts[i2].predicate);
                    }
                    if matched && t == new_t {
                        assert(m@[k as int].0.0@ == ts[i as int].predicate);
                    }
                }
                if matched {
                    assert(triple_set(v@) == b2.insert(new_t));
                } else {
                    assert(triple_set(v@) == b2);
                }
                assert(triple_set(v@) =~= before + s_i1);
            }
            i += 1;
        }
        proof {
            let s_new = Set::new(|t: TripleView| exists|q: int, i2: int| 0 <= q < k + 1 && 0 <= i2 < ts.len() && #[trigger] m@[q].0.0@ == #[trigger] ts[i2].predicate
                && t == tv(if use_object { ts[i2].object } else { ts[i2].subject }, type_iri(), m@[q].1.0@));
            let s_old = Set::new(|t: TripleView| exists|q: int, i2: int| 0 <= q < k && 0 <= i2 < ts.len() && #[trigger] m@[q].0.0@ == #[trigger] ts[i2].predicate
                && t == tv(if use_object { ts[i2].object } else { ts[i2].subject }, type_iri(), m@[q].1.0@));
            let s_k = Set::new(|t: TripleView| exists|i2: int| 0 <= i2 < ts.len() && m@[k as int].0.0@ == #[trigger] ts[i2].predicate
                && t == tv(if use_object { ts[i2].object } else { ts[i2].subject }, type_iri(), m@[k as int].1.0@));
            assert forall|t: TripleView| s_new.contains(t) <==> (s_old.contains(t) || s_k.contains(t)) by {
                if s_new.contains(t) {
                    let (q, i2) = choose|q: int, i2: int| 0 <= q < k + 1 && 0 <= i2 < ts.len() && #[trigger] m@[q].0.0@ == #[trigger] ts[i2].predicate
                        && t == tv(if use_object { ts[i2].object } else { ts[i2].subject }, type_iri(), m@[q].1.0@);
                    if q == k {
                        assert(s_k.contains(t));
                    } else {
                        assert(s_old.contains(t));
                    }
                }
                if s_k.contains(t) {
                    let i2 = choose|i2: int| 0 <= i2 < ts.len() && m@[k as int].0.0@ == #[trigger] ts[i2].predicate
                        && t == tv(if use_object { ts[i2].object } else { ts[i2].subject }, type_iri(), m@[k as int].1.0@);
                    assert(m@[k as int].0.0@ == ts[i2].predicate);
                    assert(s_new.contains(t));
                }
                if s_old.contains(t) {
                    let (q, i2) = choose|q: int, i2: int| 0 <= q < k && 0 <= i2 < ts.len() && #[trigger] m@[q].0.0@ == #[trigger] ts[i2].predicate
                        && t == tv(if use_object { ts[i2].object } else { ts[i2].subject }, type_iri(), m@[q].1.0@);
                    assert(s_new.contains(t));
                }
            }
            assert(triple_set(v@) =~= start + s_new);
        }
        k += 1;
    }
    proof {
        let full = Set::new(|t: TripleView| exists|q: int, i: int| 0 <= q < m@.len() && 0 <= i < ts.len() && #[trigger] m@[q].0.0@ == #[trigger] ts[i].predicate
            && t == tv(if use_object { ts[i].object } else { ts[i].subject }, type_iri(), m@[q].1.0@));
        assert(full =~= constraint_types(m@, ts, use_object)) by {
            assert forall|t: TripleView| full.contains(t) <==> constraint_types(m@, ts, use_object).contains(t) by {
                if full.contains(t) {
                    let (q, i) = choose|q: int, i: int| 0 <= q < m@.len() && 0 <= i < ts.len() && #[trigger] m@[q].0.0@ == #[trigger] ts[i].predicate
                        && t == tv(if use_object { ts[i].object } else { ts[i].subject }, type_iri(), m@[q].1.0@);
                    lemma_constraint_at(m@, q);
                    assert(constraint_of(m@, ts[i].predicate) is Some);
                }
                if constraint_types(m@, ts, use_object).contains(t) {
                    let i = choose|i: int| 0 <= i < ts.len() && #[trigger] constraint_of(m@, ts[i].predicate) is Some
                        && t == tv(if use_object { ts[i].object } else { ts[i].subject }, type_iri(), constraint_of(m@, ts[i].predicate)->0);
                    let q = choose|q: int| 0 <= q < m@.len() && m@[q].0.0@ == ts[i].predicate;
                    lemma_constraint_at(m@, q);
                }
            }
        }
    }
}

/// rdf:type triples propagated up the hierarchy from the first `n`
/// triples of `ts`.
pub open spec fn hierarchy_types_upto(h: Seq<(Iri, Vec<Iri>)>, ts: Seq<TripleView>, n: int) -> Set<TripleView> {
    Set::new(|t: TripleView| t.predicate == type_iri() && exists|i2: int| 0 <= i2 < n && #[trigger] ts[i2].predicate == type_iri()
        && ts[i2].subject == t.subject && in_hier(h, ts[i2].object, t.object))
}

/// The rdf:type triples that triple `n` of `ts` adds.
pub open spec fn hierarchy_types_at(h: Seq<(Iri, Vec<Iri>)>, ts: Seq<TripleView>, n: int) -> Set<TripleView> {
    Set::new(|t: TripleView| t.predicate == type_iri() && ts[n].predicate == type_iri() && ts[n].subject == t.subject && in_hier(h, ts[n].object, t.object))
}

proof fn lemma_hierarchy_types_step(h: Seq<(Iri, Vec<Iri>)>, ts: Seq<TripleView>, n: int)
    requires
        0 <= n < ts.len(),
    ensures
        hierarchy_types_upto(h, ts, n + 1) == hierarchy_types_upto(h, ts, n) + hierarchy_types_at(h, ts, n),
{
    let a = hierarchy_types_upto(h, ts, n + 1);
    let b = hierarchy_types_upto(h, ts, n);
    let c = hierarchy_types_at(h, ts, n);
    assert forall|t: TripleView| a.contains(t) <==> (b.contains(t) || c.contains(t)) by {
        if a.contains(t) {
            let i2 = choose|i2: int| 0 <= i2 < n + 1 && #[trigger] ts[i2].predicate == type_iri() && ts[i2].subject == t.subject && in_hier(h, ts[i2].object, t.object);
            if i2 < n {
                assert(b.contains(t));
            }
        }
        if c.contains(t) {
            assert(ts[n].predicate == type_iri());
        }
    }
    assert(a =~= b + c);
}

/// Record rdf:type B for the subject of every rdf:type A triple and every B
/// above A in the class hierarchy.
#[verifier::loop_isolation(false)]
fn add_hierarchy_types(v: &mut Vec<Triple>, h: &Vec<(Iri, Vec<Iri>)>, triples: &Vec<Triple>, ty: &String)
    requires
        triples_distinct(old(v)@),
        hier_wf(h@),
        ty@ == type_iri(),
    ensures
        triples_distinct(final(v)@),
        triple_set(final(v)@) == triple_set(old(v)@) + hierarchy_types(h@, triples_view(triples@)),
{
    let ghost start = triple_set(v@);
    let ghost ts = triples_view(triples@);
    let mut i: usize = 0;
    while i < triples.len()
        invariant
            i <= triples@.len(),
            ts == triples_view(triples@),
            hier_wf(h@),
            ty@ == type_iri(),
            triples_distinct(v@),
            triple_set(v@) == start + hierarchy_types_upto(h@, ts, i as int),
        decreases triples.len() - i,
    {
        let ghost before = triple_set(v@);
        proof {
            assert(ts[i as int] == triples@[i as int]@);
            lemma_hierarchy_types_step(h@, ts, i as int);
        }
        if triples[i].predicate == *ty {
            let class = Iri(triples[i].object.clone());
            let ghost class_view = class.node_view();
            proof {
                assert(class_view == ts[i as int].object);
            }
            match crate::hierarchy::hier_get(h, &class) {
                Some(supers) => {
                    let mut j: usize = 0;
                    while j < supers.len()
                        invariant
                            j <= supers@.len(),
                            triples_distinct(v@),
                            triple_set(v@) == before + Set::new(|t: TripleView| t.predicate == type_iri() && t.subject == triples@[i as int].subject@
                                && exists|q: int| 0 <= q < j && supers@[q].0@ == t.object),
                        decreases supers.len() - j,
                    {
                        let t = Triple { subject: triples[i].subject.clone(), predicate: ty.clone(), object: supers[j].0.clone() };
                        insert_triple(v, t);
                        proof {
                            assert(triple_set(v@) =~= before + Set::new(|t: TripleView| t.predicate == type_iri() && t.subject == triples@[i as int].subject@
                                && exists|q: int| 0 <= q < j + 1 && supers@[q].0@ == t.object));
                        }
                        j += 1;
                    }
                    proof {
                        let got = Set::new(|t: TripleView| t.predicate == type_iri() && t.subject == triples@[i as int].subject@
                            && exists|q: int| 0 <= q < supers@.len() && supers@[q].0@ == t.object);
                        let want = hierarchy_types_at(h@, ts, i as int);
                        assert(ts[i as int].predicate == type_iri());
                        assert(ts[i as int].subject == triples@[i as int].subject@);
                        assert forall|t: TripleView| got.contains(t) <==> want.contains(t) by {
                            if got.contains(t) {
                                let q = choose|q: int| 0 <= q < supers@.len() && supers@[q].0@ == t.object;
                                assert(crate::closure::node_views(supers@)[q] == t.object);
                                assert(crate::closure::node_views(supers@).contains(t.object));
                                assert(in_hier(h@, class_view, t.object));
                            }
                            if want.contains(t) {
                                assert(in_hier(h@, class_view, t.object));
                                assert(crate::closure::node_views(supers@).contains(t.object));
                                let q = choose|q: int| 0 <= q < crate::closure::node_views(supers@).len() && crate::closure::node_views(supers@)[q] == t.object;
                                assert(supers@[q].0@ == t.object);
                            }
                        }
                        assert(got =~= want);
                    }
                },
                None => {
                    proof {
                        assert(hierarchy_types_at(h@, ts, i as int) =~= Set::<TripleView>::empty());
                    }
                },
            }
        } else {
            proof {
                assert(hierarchy_types_at(h@, ts, i as int) =~= Set::<TripleView>::empty());
            }
        }
        proof {
            assert(triple_set(v@) =~= start + hierarchy_types_upto(h@, ts, i + 1));
        }
        i += 1;
    }
    proof {
        assert(hierarchy_types_upto(h@, ts, ts.len() as int) =~= hierarchy_types(h@, ts));
        assert(triple_set(v@) =~= start + hierarchy_types(h@, ts));
    }
}

/// Settings of the RDFS reasoner.
#[derive(Debug, Clone)]
pub struct RdfsConfig {
    /// Maximum number of inference iterations.
    pub max_iterations: usize,
    /// Inference timeout in milliseconds.
    pub timeout_ms: u64,
}

impl Default for RdfsConfig {
    fn default() -> (r: Self)
        ensures
            r.max_iterations == 1000,
            r.timeout_ms == 30000,
    {
        RdfsConfig { max_iterations: 1000, timeout_ms: 30000 }
    }
}

/// RDFS inference errors.
#[derive(Debug)]
pub enum RdfsError {
    Timeout(u64),
    MaxIterationsExceeded(usize),
    InvalidTriple(String),
    StoreError(String),
}

impl RdfsError {
    pub open spec fn message_spec(&self) -> Seq<char> {
        match self {
            RdfsError::Timeout(ms) => "Inference timeout after "@ + decimal_spec(*ms as nat) + "ms"@,
            RdfsError::MaxIterationsExceeded(n) => "Maximum iterations ("@ + decimal_spec(*n as nat) + ") exceeded"@,
            RdfsError::InvalidTriple(m) => "Invalid RDFS triple: "@ + m@,
            RdfsError::StoreError(m) => "Store error: "@ + m@,
        }
    }

    /// The error message.
    pub fn to_string(&self) -> (r: String)
        ensures
            r@ == self.message_spec(),
    {
        match self {
            RdfsError::Timeout(ms) => {
                let d = decimal(*ms);
                join("Inference timeout after ", d.as_str()).concat("ms")
            },
            RdfsError::MaxIterationsExceeded(n) => {
                let d = decimal(usize_to_u64(*n));
                join("Maximum iterations (", d.as_str()).concat(") exceeded")
            },
            RdfsError::InvalidTriple(m) => join("Invalid RDFS triple: ", m.as_str()),
            RdfsError::StoreError(m) => join("Store error: ", m.as_str()),
        }
    }
}

/// The closure of a hierarchy holds every stated edge and is transitive:
/// a node above one above `a` is above `a`.
pub proof fn law_hierarchy_closure(input: Seq<(Iri, Vec<Iri>)>, output: Seq<(Iri, Vec<Iri>)>)
    requires
        hier_wf(input),
        forall|a: Seq<char>, b: Seq<char>| #[trigger] in_hier(output, a, b) <==> (has_key(input, a) && reaches(hier_edges(input), a, b)),
    ensures
        forall|a: Seq<char>, b: Seq<char>| in_hier(input, a, b) ==> #[trigger] in_hier(output, a, b),
        forall|a: Seq<char>, b: Seq<char>, c: Seq<char>| #[trigger] in_hier(output, a, b) && #[trigger] in_hier(output, b, c) ==> in_hier(output, a, c),
{
    assert forall|a: Seq<char>, b: Seq<char>| in_hier(input, a, b) implies #[trigger] in_hier(output, a, b) by {
        crate::hierarchy::lemma_hier_edges_contains(input, a, b);
        crate::closure::lemma_edge_reaches(hier_edges(input), a, b);
        let k = choose|k: int| 0 <= k < input.len() && input[k].0.node_view() == a && #[trigger] crate::closure::node_views(input[k].1@).contains(b);
        assert(input[k].0.node_view() == a);
    }
    assert forall|a: Seq<char>, b: Seq<char>, c: Seq<char>| #[trigger] in_hier(output, a, b) && #[trigger] in_hier(output, b, c) implies in_hier(output, a, c) by {
        crate::closure::lemma_reaches_transitive(hier_edges(input), a, b, c);
    }
}

} // verus!
