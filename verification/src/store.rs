//! In-memory graph store with subject, predicate and object indices.
//!
//! The default graph keeps its triples in insertion order; each index maps a
//! string to the ascending list of positions of the default-graph triples
//! whose component equals that string.

use vstd::prelude::*;
use crate::model::{Triple, TripleView, NamedGraph, NamedGraphView, JsonValue, JsonLdDocument, triples_view, clone_triples};
use crate::index_list::{IndexList, index_list_contents, index_list_new, index_list_push, index_list_as_slice, index_list_clone};

verus! {

/// Component `c` of a triple: 0 subject, 1 predicate, 2 object.
pub open spec fn component(t: TripleView, c: int) -> Seq<char> {
    if c == 0 {
        t.subject
    } else if c == 1 {
        t.predicate
    } else {
        t.object
    }
}

/// Whether an optional pattern part accepts a value.
pub open spec fn part_matches(p: Option<Seq<char>>, v: Seq<char>) -> bool {
    match p {
        None => true,
        Some(x) => x == v,
    }
}

/// A triple pattern: each part is either fixed or free.
pub struct PatternView {
    pub subject: Option<Seq<char>>,
    pub predicate: Option<Seq<char>>,
    pub object: Option<Seq<char>>,
}

/// Whether a triple matches a pattern.
pub open spec fn pattern_matches(pat: PatternView, t: TripleView) -> bool {
    part_matches(pat.subject, t.subject) && part_matches(pat.predicate, t.predicate)
        && part_matches(pat.object, t.object)
}

/// The triples of `ts` that match `pat`, in their order.
pub open spec fn select(ts: Seq<TripleView>, pat: PatternView) -> Seq<TripleView>
    decreases ts.len(),
{
    if ts.len() == 0 {
        Seq::empty()
    } else {
        let rest = select(ts.drop_last(), pat);
        if pattern_matches(pat, ts.last()) {
            rest.push(ts.last())
        } else {
            rest
        }
    }
}

/// The view of an optional string argument.
pub open spec fn opt_view(o: Option<&str>) -> Option<Seq<char>> {
    match o {
        None => None,
        Some(s) => Some(s@),
    }
}

/// Strictly ascending sequence of positions.
pub open spec fn ascending(s: Seq<usize>) -> bool {
    forall|i: int, j: int| 0 <= i < j < s.len() ==> s[i] < s[j]
}

/// `idxs` lists, in ascending order, exactly the positions of `ts` whose
/// triple satisfies `pat`.
pub open spec fn lists_exactly(idxs: Seq<usize>, ts: Seq<TripleView>, pat: PatternView) -> bool {
    &&& ascending(idxs)
    &&& forall|k: int| 0 <= k < idxs.len() ==> idxs[k] < ts.len() && pattern_matches(pat, ts[idxs[k] as int])
    &&& forall|i: int| 0 <= i < ts.len() && pattern_matches(pat, ts[i]) ==> idxs.contains(i as usize)
}

/// The pattern that fixes only component `c` to `key`.
pub open spec fn single_pattern(c: int, key: Seq<char>) -> PatternView {
    PatternView {
        subject: if c == 0 { Some(key) } else { None },
        predicate: if c == 1 { Some(key) } else { None },
        object: if c == 2 { Some(key) } else { None },
    }
}

/// The pattern that fixes component `c1` to `k1` and `c2` to `k2`.
pub open spec fn pair_pattern(c1: int, k1: Seq<char>, c2: int, k2: Seq<char>) -> PatternView {
    PatternView {
        subject: if c1 == 0 { Some(k1) } else if c2 == 0 { Some(k2) } else { None },
        predicate: if c1 == 1 { Some(k1) } else if c2 == 1 { Some(k2) } else { None },
        object: if c1 == 2 { Some(k1) } else if c2 == 2 { Some(k2) } else { None },
    }
}

/// An index over component `c` of `ts` is well formed: keys are distinct,
/// each key lists exactly the positions where it occurs, and every value
/// that occurs has a key.
pub open spec fn index_wf(idx: Seq<(String, IndexList)>, ts: Seq<TripleView>, c: int) -> bool {
    &&& forall|a: int, b: int| 0 <= a < b < idx.len() ==> idx[a].0@ != idx[b].0@
    &&& forall|k: int|
        0 <= k < idx.len() ==> lists_exactly(
            index_list_contents(#[trigger] idx[k].1),
            ts,
            single_pattern(c, idx[k].0@),
        )
    &&& forall|i: int| 0 <= i < ts.len() ==> #[trigger] index_has_key(idx, component(ts[i], c))
}

/// Whether an index has an entry for `key`.
pub open spec fn index_has_key(idx: Seq<(String, IndexList)>, key: Seq<char>) -> bool {
    exists|k: int| 0 <= k < idx.len() && idx[k].0@ == key
}

/// The named graphs have distinct names.
pub open spec fn graphs_wf(gs: Seq<NamedGraph>) -> bool {
    forall|a: int, b: int| 0 <= a < b < gs.len() ==> gs[a].name@ != gs[b].name@
}

/// The content of the named graph called `name`, if there is one.
pub open spec fn graph_lookup(gs: Seq<NamedGraph>, name: Seq<char>) -> Option<NamedGraphView> {
    if exists|k: int| 0 <= k < gs.len() && gs[k].name@ == name {
        let k = choose|k: int| 0 <= k < gs.len() && gs[k].name@ == name;
        Some(gs[k]@)
    } else {
        None
    }
}

/// The set of names of the named graphs.
pub open spec fn graph_name_set(gs: Seq<NamedGraph>) -> Set<Seq<char>> {
    Set::new(|n: Seq<char>| exists|k: int| 0 <= k < gs.len() && gs[k].name@ == n)
}

/// In-memory graph store with indexing for fast queries.
pub struct GraphStore {
    /// Named graphs, one per name.
    graphs: Vec<NamedGraph>,
    /// Default graph for unnamed triples.
    default_graph: NamedGraph,
    /// Subject index: subject -> ascending positions in the default graph.
    subject_index: Vec<(String, IndexList)>,
    /// Predicate index.
    predicate_index: Vec<(String, IndexList)>,
    /// Object index.
    object_index: Vec<(String, IndexList)>,
}

impl GraphStore {
    /// The triples of the default graph, in insertion order.
    pub closed spec fn default_triples(&self) -> Seq<TripleView> {
        triples_view(self.default_graph.triples@)
    }

    /// The name of the default graph.
    pub closed spec fn default_name(&self) -> Seq<char> {
        self.default_graph.name@
    }

    /// The named graph called `name`, if there is one.
    pub closed spec fn named_graph(&self, name: Seq<char>) -> Option<NamedGraphView> {
        graph_lookup(self.graphs@, name)
    }

    /// The names of the named graphs.
    pub closed spec fn names(&self) -> Set<Seq<char>> {
        graph_name_set(self.graphs@)
    }

    /// How many triples the named graphs hold together.
    pub closed spec fn named_triple_count(&self) -> int {
        graphs_triple_count(self.graphs@)
    }

    /// The store's invariant.
    pub closed spec fn wf(&self) -> bool {
        &&& graphs_wf(self.graphs@)
        &&& index_wf(self.subject_index@, self.default_triples(), 0)
        &&& index_wf(self.predicate_index@, self.default_triples(), 1)
        &&& index_wf(self.object_index@, self.default_triples(), 2)
    }

    /// An empty store whose default graph is called "default".
    pub fn new() -> (r: Self)
        ensures
            r.wf(),
            r.default_triples() == Seq::<TripleView>::empty(),
            r.default_name() == "default"@,
            r.names() == Set::<Seq<char>>::empty(),
            forall|n: Seq<char>| r.named_graph(n) is None,
    {
        let r = GraphStore {
            graphs: Vec::new(),
            default_graph: NamedGraph { name: "default".to_string(), triples: Vec::new() },
            subject_index: Vec::new(),
            predicate_index: Vec::new(),
            object_index: Vec::new(),
        };
        proof {
            assert(r.default_triples() =~= Seq::<TripleView>::empty());
            assert(r.names() =~= Set::<Seq<char>>::empty());
        }
        r
    }

    /// Add a triple to the default graph.
    pub fn add_triple(&mut self, triple: Triple)
        requires
            old(self).wf(),
            old(self).default_triples().len() < usize::MAX,
        ensures
            final(self).wf(),
            final(self).default_triples() == old(self).default_triples().push(triple@),
            final(self).default_name() == old(self).default_name(),
            final(self).names() == old(self).names(),
            forall|n: Seq<char>| final(self).named_graph(n) == old(self).named_graph(n),
    {
        let ghost old_ts = self.default_triples();
        let index = self.default_graph.triples.len();
        let s = triple.subject.clone();
        let p = triple.predicate.clone();
        let o = triple.object.clone();
        self.default_graph.triples.push(triple);
        proof {
            assert(self.default_triples() =~= old_ts.push(triple@));
        }
        index_add(&mut self.subject_index, s, index, Ghost(old_ts), Ghost(triple@), Ghost(0));
        index_add(&mut self.predicate_index, p, index, Ghost(old_ts), Ghost(triple@), Ghost(1));
        index_add(&mut self.object_index, o, index, Ghost(old_ts), Ghost(triple@), Ghost(2));
    }

    /// Add a triple to a named graph, creating the graph if needed.
    pub fn add_triple_to_graph(&mut self, graph_name: &str, triple: Triple)
        requires
            old(self).wf(),
        ensures
            final(self).wf(),
            final(self).default_triples() == old(self).default_triples(),
            final(self).default_name() == old(self).default_name(),
            final(self).names() == old(self).names().insert(graph_name@),
            final(self).named_graph(graph_name@) == Some(
                NamedGraphView {
                    name: graph_name@,
                    triples: match old(self).named_graph(graph_name@) {
                        Some(g) => g.triples,
                        None => Seq::<TripleView>::empty(),
                    }.push(triple@),
                },
            ),
            forall|n: Seq<char>| n != graph_name@ ==> final(self).named_graph(n) == old(self).named_graph(n),
    {
        let mut v: Vec<Triple> = Vec::new();
        v.push(triple);
        let ghost base = match old(self).named_graph(graph_name@) {
            Some(g) => g.triples,
            None => Seq::<TripleView>::empty(),
        };
        proof {
            assert(triples_view(v@) =~= seq![triple@]);
            assert(base + triples_view(v@) =~= base.push(triple@));
        }
        self.extend_graph(graph_name, v);
    }

    /// Add several triples to a named graph, creating the graph if needed.
    pub fn add_triples_to_graph(&mut self, graph_name: &str, triples: Vec<Triple>)
        requires
            old(self).wf(),
        ensures
            final(self).wf(),
            final(self).default_triples() == old(self).default_triples(),
            final(self).default_name() == old(self).default_name(),
            final(self).names() == old(self).names().insert(graph_name@),
            final(self).named_graph(graph_name@) == Some(
                NamedGraphView {
                    name: graph_name@,
                    triples: match old(self).named_graph(graph_name@) {
                        Some(g) => g.triples,
                        None => Seq::<TripleView>::empty(),
                    } + triples_view(triples@),
                },
            ),
            forall|n: Seq<char>| n != graph_name@ ==> final(self).named_graph(n) == old(self).named_graph(n),
    {
        self.extend_graph(graph_name, triples);
    }

    fn extend_graph(&mut self, graph_name: &str, triples: Vec<Triple>)
        requires
            old(self).wf(),
        ensures
            final(self).wf(),
            final(self).default_triples() == old(self).default_triples(),
            final(self).default_name() == old(self).default_name(),
            final(self).names() == old(self).names().insert(graph_name@),
            final(self).named_graph(graph_name@) == Some(
                NamedGraphView {
                    name: graph_name@,
                    triples: match old(self).named_graph(graph_name@) {
                        Some(g) => g.triples,
                        None => Seq::<TripleView>::empty(),
                    } + triples_view(triples@),
                },
            ),
            forall|n: Seq<char>| n != graph_name@ ==> final(self).named_graph(n) == old(self).named_graph(n),
    {
        let ghost old_gs = self.graphs@;
        let name = graph_name.to_string();
        let pos = find_graph(&self.graphs, &name);
        let mut graphs: Vec<NamedGraph> = Vec::new();
        std::mem::swap(&mut graphs, &mut self.graphs);
        match pos {
            Some(k) => {
                let mut g = graphs.remove(k);
                let ghost old_g = g@;
                let mut ts = triples;
                let ghost added = triples_view(ts@);
                g.triples.append(&mut ts);
                proof {
                    assert(triples_view(g.triples@) =~= old_g.triples + added);
                }
                graphs.insert(k, g);
                proof {
                    assert forall|a: int, b: int| 0 <= a < b < graphs@.len() implies graphs@[a].name@ != graphs@[b].name@ by {
                        let oa = if a == k { k as int } else { a };
                        assert(graphs@[a].name@ == old_gs[a].name@);
                        assert(graphs@[b].name@ == old_gs[b].name@);
                    }
                    lemma_lookup_at(graphs@, k as int);
                    lemma_lookup_at(old_gs, k as int);
                    assert forall|n: Seq<char>| n != graph_name@ implies graph_lookup(graphs@, n) == graph_lookup(old_gs, n) by {
                        lemma_lookup_same_names(graphs@, old_gs, n, k as int);
                    }
                    assert(graph_name_set(graphs@) =~= graph_name_set(old_gs).insert(graph_name@)) by {
                        assert forall|n: Seq<char>| graph_name_set(graphs@).contains(n) <==> graph_name_set(old_gs).insert(graph_name@).contains(n) by {
                            if graph_name_set(old_gs).contains(n) {
                                let j = choose|j: int| 0 <= j < old_gs.len() && old_gs[j].name@ == n;
                                assert(graphs@[j].name@ == n);
                            }
                            if graph_name_set(graphs@).contains(n) {
                                let j = choose|j: int| 0 <= j < graphs@.len() && graphs@[j].name@ == n;
                                assert(old_gs[j].name@ == n);
                            }
                        }
                    }
                }
            },
            None => {
                let mut ts = triples;
                let ghost added = triples_view(ts@);
                let mut all: Vec<Triple> = Vec::new();
                all.append(&mut ts);
                proof {
                    assert(triples_view(all@) =~= Seq::<TripleView>::empty() + added);
                }
                let g = NamedGraph { name, triples: all };
                graphs.push(g);
                proof {
                    let k = old_gs.len() as int;
                    assert forall|a: int, b: int| 0 <= a < b < graphs@.len() implies graphs@[a].name@ != graphs@[b].name@ by {
                        if b == k {
                            assert(graphs@[a] == old_gs[a]);
                        } else {
                            assert(graphs@[a] == old_gs[a]);
                            assert(graphs@[b] == old_gs[b]);
                        }
                    }
                    lemma_lookup_at(graphs@, k);
                    assert forall|n: Seq<char>| n != graph_name@ implies graph_lookup(graphs@, n) == graph_lookup(old_gs, n) by {
                        lemma_lookup_push(old_gs, g, n);
                    }
                    assert(graph_name_set(graphs@) =~= graph_name_set(old_gs).insert(graph_name@)) by {
                        assert forall|n: Seq<char>| graph_name_set(graphs@).contains(n) <==> graph_name_set(old_gs).insert(graph_name@).contains(n) by {
                            if graph_name_set(old_gs).contains(n) {
                                let j = choose|j: int| 0 <= j < old_gs.len() && old_gs[j].name@ == n;
                                assert(graphs@[j].name@ == n);
                            }
                            if graph_name_set(graphs@).contains(n) {
                                let j = choose|j: int| 0 <= j < graphs@.len() && graphs@[j].name@ == n;
                                if j < k {
                                    assert(old_gs[j].name@ == n);
                                }
                            }
                        }
                    }
                }
            },
        }
        self.graphs = graphs;
    }

    /// The default graph.
    pub fn get_default_graph(&self) -> (r: &NamedGraph)
        ensures
            r@.name == self.default_name(),
            r@.triples == self.default_triples(),
    {
        &self.default_graph
    }

    /// The named graph called `name`, if there is one.
    pub fn get_graph(&self, name: &str) -> (r: Option<&NamedGraph>)
        requires
            self.wf(),
        ensures
            match r {
                Some(g) => self.named_graph(name@) == Some(g@),
                None => self.named_graph(name@) is None,
            },
    {
        let n = name.to_string();
        match find_graph(&self.graphs, &n) {
            Some(k) => {
                proof {
                    lemma_lookup_at(self.graphs@, k as int);
                }
                Some(&self.graphs[k])
            },
            None => None,
        }
    }

    /// The names of all named graphs, each once.
    pub fn graph_names(&self) -> (r: Vec<String>)
        requires
            self.wf(),
        ensures
            r@.len() == self.names().len(),
            forall|n: Seq<char>| self.names().contains(n) <==> exists|k: int| 0 <= k < r@.len() && r@[k]@ == n,
            forall|a: int, b: int| 0 <= a < b < r@.len() ==> r@[a]@ != r@[b]@,
    {
        let mut r: Vec<String> = Vec::new();
        let mut i: usize = 0;
        while i < self.graphs.len()
            invariant
                i <= self.graphs@.len(),
                r@.len() == i,
                forall|k: int| 0 <= k < i ==> (#[trigger] r@[k])@ == self.graphs@[k].name@,
            decreases self.graphs.len() - i,
        {
            r.push(self.graphs[i].name.clone());
            i += 1;
        }
        proof {
            lemma_name_set_len(self.graphs@);
            assert forall|n: Seq<char>| self.names().contains(n) <==> exists|k: int| 0 <= k < r@.len() && r@[k]@ == n by {
                if self.names().contains(n) {
                    let k = choose|k: int| 0 <= k < self.graphs@.len() && self.graphs@[k].name@ == n;
                    assert(r@[k]@ == n);
                }
                if exists|k: int| 0 <= k < r@.len() && r@[k]@ == n {
                    let k = choose|k: int| 0 <= k < r@.len() && r@[k]@ == n;
                    assert(self.graphs@[k].name@ == n);
                }
            }
        }
        r
    }

    /// Find the default-graph triples matching a pattern, in insertion order.
    pub fn find_triples(&self, subject: Option<&str>, predicate: Option<&str>, object: Option<&str>) -> (r: Vec<&Triple>)
        requires
            self.wf(),
        ensures
            r@.map_values(|t: &Triple| t@) == select(
                self.default_triples(),
                PatternView { subject: opt_view(subject), predicate: opt_view(predicate), object: opt_view(object) },
            ),
    {
        let ghost ts = self.default_triples();
        let ghost pat = PatternView { subject: opt_view(subject), predicate: opt_view(predicate), object: opt_view(object) };
        let candidate_indices: IndexList = match (subject, predicate, object) {
            (Some(s), Some(p), Some(o)) => self.find_exact_triple_indices(s, p, o),
            (Some(s), None, None) => {
                let c = index_lookup_cloned(&self.subject_index, s, Ghost(ts), Ghost(0));
                proof { assert(single_pattern(0, s@) == pat); }
                c
            },
            (None, Some(p), None) => {
                let c = index_lookup_cloned(&self.predicate_index, p, Ghost(ts), Ghost(1));
                proof { assert(single_pattern(1, p@) == pat); }
                c
            },
            (None, None, Some(o)) => {
                let c = index_lookup_cloned(&self.object_index, o, Ghost(ts), Ghost(2));
                proof { assert(single_pattern(2, o@) == pat); }
                c
            },
            (Some(s), Some(p), None) => {
                let a = index_lookup_cloned(&self.subject_index, s, Ghost(ts), Ghost(0));
                let b = index_lookup_cloned(&self.predicate_index, p, Ghost(ts), Ghost(1));
                let c = self.intersect_indices(index_list_as_slice(&a), index_list_as_slice(&b), Ghost(ts), Ghost(single_pattern(0, s@)), Ghost(single_pattern(1, p@)));
                proof {
                    lemma_and_patterns(ts, single_pattern(0, s@), single_pattern(1, p@), pat, index_list_contents(c), index_list_contents(a), index_list_contents(b));
                }
                c
            },
            (Some(s), None, Some(o)) => {
                let a = index_lookup_cloned(&self.subject_index, s, Ghost(ts), Ghost(0));
                let b = index_lookup_cloned(&self.object_index, o, Ghost(ts), Ghost(2));
                let c = self.intersect_indices(index_list_as_slice(&a), index_list_as_slice(&b), Ghost(ts), Ghost(single_pattern(0, s@)), Ghost(single_pattern(2, o@)));
                proof {
                    lemma_and_patterns(ts, single_pattern(0, s@), single_pattern(2, o@), pat, index_list_contents(c), index_list_contents(a), index_list_contents(b));
                }
                c
            },
            (None, Some(p), Some(o)) => {
                let a = index_lookup_cloned(&self.predicate_index, p, Ghost(ts), Ghost(1));
                let b = index_lookup_cloned(&self.object_index, o, Ghost(ts), Ghost(2));
                let c = self.intersect_indices(index_list_as_slice(&a), index_list_as_slice(&b), Ghost(ts), Ghost(single_pattern(1, p@)), Ghost(single_pattern(2, o@)));
                proof {
                    lemma_and_patterns(ts, single_pattern(1, p@), single_pattern(2, o@), pat, index_list_contents(c), index_list_contents(a), index_list_contents(b));
                }
                c
            },
            (None, None, None) => {
                let mut all = index_list_new();
                let n = self.default_graph.triples.len();
                let mut i: usize = 0;
                while i < n
                    invariant
                        i <= n,
                        n == ts.len(),
                        index_list_contents(all) == Seq::new(i as nat, |k: int| k as usize),
                    decreases n - i,
                {
                    index_list_push(&mut all, i);
                    i += 1;
                    proof {
                        assert(index_list_contents(all) =~= Seq::new(i as nat, |k: int| k as usize));
                    }
                }
                proof {
                    let idxs = index_list_contents(all);
                    assert forall|k: int| 0 <= k < ts.len() && pattern_matches(pat, ts[k]) implies idxs.contains(k as usize) by {
                        assert(idxs[k] == k as usize);
                    }
                }
                all
            },
        };
        let candidates = index_list_as_slice(&candidate_indices);
        let mut results: Vec<&Triple> = Vec::new();
        let mut k: usize = 0;
        while k < candidates.len()
            invariant
                k <= candidates@.len(),
                lists_exactly(candidates@, ts, pat),
                ts == triples_view(self.default_graph.triples@),
                results@.map_values(|t: &Triple| t@) == candidates@.take(k as int).map_values(|i: usize| ts[i as int]),
            decreases candidates.len() - k,
        {
            let index = candidates[k];
            if index < self.default_graph.triples.len() {
                results.push(&self.default_graph.triples[index]);
            }
            proof {
                assert(candidates@.take(k + 1) =~= candidates@.take(k as int).push(index));
                assert(candidates@.take(k + 1).map_values(|i: usize| ts[i as int]) =~= candidates@.take(k as int).map_values(|i: usize| ts[i as int]).push(ts[index as int]));
                assert(results@.map_values(|t: &Triple| t@) =~= candidates@.take(k + 1).map_values(|i: usize| ts[i as int]));
            }
            k += 1;
        }
        let total = self.default_graph.triples.len();
        proof {
            assert(candidates@.take(candidates@.len() as int) =~= candidates@);
            assert(ts.len() == self.default_graph.triples@.len());
            lemma_exact_list_selects(candidates@, ts, pat);
        }
        results
    }

    /// Positions of default-graph triples equal to (subject, predicate, object).
    fn find_exact_triple_indices(&self, subject: &str, predicate: &str, object: &str) -> (r: IndexList)
        requires
            self.wf(),
        ensures
            lists_exactly(
                index_list_contents(r),
                self.default_triples(),
                PatternView { subject: Some(subject@), predicate: Some(predicate@), object: Some(object@) },
            ),
    {
        let ghost ts = self.default_triples();
        let ghost pat = PatternView { subject: Some(subject@), predicate: Some(predicate@), object: Some(object@) };
        let sl = index_lookup_cloned(&self.subject_index, subject, Ghost(ts), Ghost(0));
        let pl = index_lookup_cloned(&self.predicate_index, predicate, Ghost(ts), Ghost(1));
        let ol = index_lookup_cloned(&self.object_index, object, Ghost(ts), Ghost(2));
        let subject_indices = index_list_as_slice(&sl);
        let predicate_indices = index_list_as_slice(&pl);
        let object_indices = index_list_as_slice(&ol);
        let mut result = index_list_new();
        let mut i: usize = 0;
        while i < subject_indices.len()
            invariant
                i <= subject_indices@.len(),
                pat == (PatternView { subject: Some(subject@), predicate: Some(predicate@), object: Some(object@) }),
                lists_exactly(subject_indices@, ts, single_pattern(0, subject@)),
                lists_exactly(predicate_indices@, ts, single_pattern(1, predicate@)),
                lists_exactly(object_indices@, ts, single_pattern(2, object@)),
                ascending(index_list_contents(result)),
                forall|k: int| 0 <= k < index_list_contents(result).len() ==> subject_indices@.take(i as int).contains(#[trigger] index_list_contents(result)[k]) && pattern_matches(pat, ts[index_list_contents(result)[k] as int]) && index_list_contents(result)[k] < ts.len(),
                forall|k: int| 0 <= k < i ==> pattern_matches(pat, ts[subject_indices@[k] as int]) ==> index_list_contents(result).contains(#[trigger] subject_indices@[k]),
                i > 0 && index_list_contents(result).len() > 0 ==> index_list_contents(result).last() <= subject_indices@[i - 1],
            decreases subject_indices.len() - i,
        {
            let idx = subject_indices[i];
            let ghost before = index_list_contents(result);
            if slice_contains(predicate_indices, idx) && slice_contains(object_indices, idx) {
                index_list_push(&mut result, idx);
            }
            proof {
                let now = index_list_contents(result);
                assert(subject_indices@.take(i + 1) =~= subject_indices@.take(i as int).push(idx));
                assert forall|k: int| 0 <= k < now.len() implies subject_indices@.take(i + 1).contains(#[trigger] now[k]) && pattern_matches(pat, ts[now[k] as int]) && now[k] < ts.len() by {
                    if k < before.len() {
                        assert(now[k] == before[k]);
                        let w = choose|w: int| 0 <= w < i && subject_indices@.take(i as int)[w] == before[k];
                        assert(subject_indices@.take(i + 1)[w] == before[k]);
                    } else {
                        assert(subject_indices@.take(i + 1)[i as int] == idx);
                        let pj = choose|j: int| 0 <= j < predicate_indices@.len() && predicate_indices@[j] == idx;
                        let oj = choose|j: int| 0 <= j < object_indices@.len() && object_indices@[j] == idx;
                        assert(pattern_matches(single_pattern(1, predicate@), ts[predicate_indices@[pj] as int]));
                        assert(pattern_matches(single_pattern(2, object@), ts[object_indices@[oj] as int]));
                    }
                }
                assert forall|a: int, b: int| 0 <= a < b < now.len() implies now[a] < now[b] by {
                    if b >= before.len() {
                        if i > 0 && before.len() > 0 {
                            assert(before.last() <= subject_indices@[i - 1]);
                            assert(subject_indices@[i - 1] < subject_indices@[i as int]);
                        }
                        let w = choose|w: int| 0 <= w < i && subject_indices@.take(i as int)[w] == before[a];
                        assert(subject_indices@[w] < subject_indices@[i as int]);
                    }
                }
                assert forall|k: int| 0 <= k < i + 1 implies pattern_matches(pat, ts[subject_indices@[k] as int]) ==> now.contains(#[trigger] subject_indices@[k]) by {
                    if k < i {
                        if pattern_matches(pat, ts[subject_indices@[k] as int]) {
                            let w = choose|w: int| 0 <= w < before.len() && before[w] == subject_indices@[k];
                            assert(now[w] == before[w]);
                        }
                    } else if pattern_matches(pat, ts[idx as int]) {
                        assert(pattern_matches(single_pattern(1, predicate@), ts[idx as int]));
                        assert(pattern_matches(single_pattern(2, object@), ts[idx as int]));
                        assert(now[now.len() - 1] == idx);
                    }
                }
                if now.len() > 0 {
                    if now.len() > before.len() {
                        assert(now.last() == idx);
                    } else {
                        assert(now.last() == before.last());
                        assert(subject_indices@[i - 1] < subject_indices@[i as int]);
                    }
                }
            }
            i += 1;
        }
        proof {
            let res = index_list_contents(result);
            assert(subject_indices@.take(subject_indices@.len() as int) =~= subject_indices@);
            assert forall|j: int| 0 <= j < ts.len() && pattern_matches(pat, ts[j]) implies res.contains(j as usize) by {
                assert(pattern_matches(single_pattern(0, subject@), ts[j]));
                let w = choose|w: int| 0 <= w < subject_indices@.len() && subject_indices@[w] == j as usize;
            }
        }
        result
    }

    /// Intersect two ascending position lists.
    fn intersect_indices(&self, a: &[usize], b: &[usize], Ghost(ts): Ghost<Seq<TripleView>>, Ghost(pa): Ghost<PatternView>, Ghost(pb): Ghost<PatternView>) -> (r: IndexList)
        requires
            lists_exactly(a@, ts, pa),
            lists_exactly(b@, ts, pb),
        ensures
            ascending(index_list_contents(r)),
            forall|k: int| 0 <= k < index_list_contents(r).len() ==> a@.contains(#[trigger] index_list_contents(r)[k]) && b@.contains(index_list_contents(r)[k]),
            forall|x: usize| a@.contains(x) && b@.contains(x) ==> index_list_contents(r).contains(x),
    {
        let mut result = index_list_new();
        let mut i: usize = 0;
        let mut j: usize = 0;
        while i < a.len() && j < b.len()
            invariant
                i <= a@.len(),
                j <= b@.len(),
                ascending(a@),
                ascending(b@),
                ascending(index_list_contents(result)),
                forall|k: int| 0 <= k < index_list_contents(result).len() ==> a@.contains(#[trigger] index_list_contents(result)[k]) && b@.contains(index_list_contents(result)[k]),
                forall|k: int| 0 <= k < index_list_contents(result).len() ==> (i < a@.len() ==> #[trigger] index_list_contents(result)[k] < a@[i as int]) && (j < b@.len() ==> index_list_contents(result)[k] < b@[j as int]),
                forall|x: usize| a@.contains(x) && b@.contains(x) && ((i < a@.len() && x < a@[i as int]) || i == a@.len() || (j < b@.len() && x < b@[j as int]) || j == b@.len()) ==> index_list_contents(result).contains(x),
            decreases a.len() - i + b.len() - j,
        {
            let ghost before = index_list_contents(result);
            if a[i] < b[j] {
                proof {
                    assert forall|x: usize| a@.contains(x) && b@.contains(x) && ((i + 1 < a@.len() && x < a@[i + 1]) || i + 1 == a@.len() || (j < b@.len() && x < b@[j as int])) implies before.contains(x) by {
                        let wa = choose|w: int| 0 <= w < a@.len() && a@[w] == x;
                        let wb = choose|w: int| 0 <= w < b@.len() && b@[w] == x;
                        if wa <= i {
                            if wa == i {
                                if wb < j { } else { assert(b@[j as int] <= b@[wb]); }
                            }
                        }
                    }
                }
                i += 1;
            } else if a[i] > b[j] {
                proof {
                    assert forall|x: usize| a@.contains(x) && b@.contains(x) && ((i < a@.len() && x < a@[i as int]) || (j + 1 < b@.len() && x < b@[j + 1]) || j + 1 == b@.len()) implies before.contains(x) by {
                        let wa = choose|w: int| 0 <= w < a@.len() && a@[w] == x;
                        let wb = choose|w: int| 0 <= w < b@.len() && b@[w] == x;
                        if wb == j {
                            if wa < i { } else { assert(a@[i as int] <= a@[wa]); }
                        }
                    }
                }
                j += 1;
            } else {
                let x0 = a[i];
                index_list_push(&mut result, x0);
                proof {
                    let now = index_list_contents(result);
                    assert(now.last() == x0);
                    assert(a@.contains(x0));
                    assert(b@[j as int] == x0);
                    assert(b@.contains(x0));
                    assert forall|k: int| 0 <= k < now.len() implies a@.contains(#[trigger] now[k]) && b@.contains(now[k]) by {
                        if k < before.len() { assert(now[k] == before[k]); }
                    }
                    assert forall|k: int| 0 <= k < now.len() implies (i + 1 < a@.len() ==> #[trigger] now[k] < a@[i + 1]) && (j + 1 < b@.len() ==> now[k] < b@[j + 1]) by {
                        if k < before.len() { assert(now[k] == before[k]); }
                    }
                    assert forall|x: usize| a@.contains(x) && b@.contains(x) && ((i + 1 < a@.len() && x < a@[i + 1]) || i + 1 == a@.len() || (j + 1 < b@.len() && x < b@[j + 1]) || j + 1 == b@.len()) implies now.contains(x) by {
                        let wa = choose|w: int| 0 <= w < a@.len() && a@[w] == x;
                        let wb = choose|w: int| 0 <= w < b@.len() && b@[w] == x;
                        if x == x0 {
                            assert(now[now.len() - 1] == x0);
                        } else if wa < i || wb < j {
                            if wa < i { assert(a@[wa] < a@[i as int]); } else { assert(b@[wb] < b@[j as int]); }
                            let w = choose|w: int| 0 <= w < before.len() && before[w] == x;
                            assert(now[w] == x);
                        } else {
                            if wa == i { } else if wb == j { } else {
                                assert(a@[i as int] < a@[wa]);
                                assert(b@[j as int] < b@[wb]);
                            }
                        }
                    }
                    assert forall|p: int, q: int| 0 <= p < q < now.len() implies now[p] < now[q] by {
                        if q == now.len() - 1 && p < before.len() {
                            assert(now[p] == before[p]);
                        }
                    }
                }
                i += 1;
                j += 1;
            }
        }
        result
    }

    /// Convert the store to a JSON-LD document: one node per triple of the
    /// default graph, then one per triple of each named graph.
    #[verifier::loop_isolation(false)]
    pub fn to_jsonld(&self) -> (r: Result<JsonLdDocument, anyhow::Error>)
        ensures
            r is Ok,
            r->Ok_0.graph is Some,
            r->Ok_0.graph.unwrap()@.len() == self.default_triples().len() + self.named_triple_count(),
            forall|k: int| 0 <= k < self.default_triples().len() ==> crate::model::json_view(#[trigger] r->Ok_0.graph.unwrap()@[k]) == jsonld_node(self.default_triples()[k]),
            r->Ok_0.data@.len() == 0,
    {
        let mut graph: Vec<JsonValue> = Vec::new();
        let mut i: usize = 0;
        while i < self.default_graph.triples.len()
            invariant
                i <= self.default_graph.triples@.len(),
                graph@.len() == i,
                forall|k: int| 0 <= k < i ==> crate::model::json_view(#[trigger] graph@[k]) == jsonld_node(self.default_graph.triples@[k]@),
            decreases self.default_graph.triples.len() - i,
        {
            graph.push(triple_node(&self.default_graph.triples[i]));
            i += 1;
        }
        let mut g: usize = 0;
        while g < self.graphs.len()
            invariant
                g <= self.graphs@.len(),
                graph@.len() == self.default_graph.triples@.len() + graphs_triple_count(self.graphs@.take(g as int)),
                graph@.len() >= self.default_graph.triples@.len(),
                forall|k: int| 0 <= k < self.default_graph.triples@.len() ==> crate::model::json_view(#[trigger] graph@[k]) == jsonld_node(self.default_graph.triples@[k]@),
            decreases self.graphs.len() - g,
        {
            let named = &self.graphs[g];
            let ghost before = graph@;
            let mut t: usize = 0;
            while t < named.triples.len()
                invariant
                    t <= named.triples@.len(),
                    graph@.len() == before.len() + t,
                    forall|k: int| 0 <= k < before.len() ==> graph@[k] == before[k],
                decreases named.triples.len() - t,
            {
                graph.push(triple_node(&named.triples[t]));
                t += 1;
            }
            proof {
                assert(self.graphs@.take(g + 1).drop_last() =~= self.graphs@.take(g as int));
                assert forall|k: int| 0 <= k < self.default_graph.triples@.len() implies crate::model::json_view(#[trigger] graph@[k]) == jsonld_node(self.default_graph.triples@[k]@) by {
                    assert(graph@[k] == before[k]);
                }
            }
            g += 1;
        }
        proof {
            assert(self.graphs@.take(self.graphs@.len() as int) =~= self.graphs@);
        }
        let context = JsonValue::Object(vec![
            ("@vocab".to_string(), JsonValue::str_value("https://w3id.org/security#")),
            ("rdf".to_string(), JsonValue::str_value("http://www.w3.org/1999/02/22-rdf-syntax-ns#")),
            ("rdfs".to_string(), JsonValue::str_value("http://www.w3.org/2000/01/rdf-schema#")),
        ]);
        Ok(JsonLdDocument { context, graph: Some(graph), data: Vec::new() })
    }

    /// Remove every triple and every named graph.
    pub fn clear(&mut self)
        ensures
            final(self).wf(),
            final(self).default_triples() == Seq::<TripleView>::empty(),
            final(self).default_name() == old(self).default_name(),
            final(self).names() == Set::<Seq<char>>::empty(),
            forall|n: Seq<char>| final(self).named_graph(n) is None,
    {
        self.graphs.clear();
        self.default_graph.triples.clear();
        self.subject_index.clear();
        self.predicate_index.clear();
        self.object_index.clear();
        proof {
            assert(self.default_triples() =~= Seq::<TripleView>::empty());
            assert(self.names() =~= Set::<Seq<char>>::empty());
        }
    }
}

/// The JSON-LD node of one triple: its subject under "@id" and its object
/// under the predicate (a predicate "@id" replaces the subject).
pub open spec fn jsonld_node(t: TripleView) -> crate::model::JsonV {
    if t.predicate == "@id"@ {
        crate::model::JsonV::Object(seq![("@id"@, crate::model::JsonV::Str(t.object))])
    } else {
        crate::model::JsonV::Object(seq![("@id"@, crate::model::JsonV::Str(t.subject)), (t.predicate, crate::model::JsonV::Str(t.object))])
    }
}

/// Total number of triples in a sequence of named graphs.
pub open spec fn graphs_triple_count(gs: Seq<NamedGraph>) -> int
    decreases gs.len(),
{
    if gs.len() == 0 {
        0
    } else {
        graphs_triple_count(gs.drop_last()) + gs.last().triples@.len()
    }
}

fn triple_node(t: &Triple) -> (r: JsonValue)
    ensures
        crate::model::json_view(r) == jsonld_node(t@),
{
    let id = "@id".to_string();
    if t.predicate == id {
        let r = JsonValue::Object(vec![(id, JsonValue::Str(t.object.clone()))]);
        proof {
            reveal_with_fuel(crate::model::json_fields_view, 3);
            reveal_with_fuel(crate::model::json_view, 2);
            let v = r->Object_0@;
            assert(v.drop_last() =~= Seq::<(String, JsonValue)>::empty());
            assert(crate::model::json_fields_view(v) =~= seq![("@id"@, crate::model::JsonV::Str(t.object@))]);
        }
        r
    } else {
        let r = JsonValue::Object(vec![(id, JsonValue::Str(t.subject.clone())), (t.predicate.clone(), JsonValue::Str(t.object.clone()))]);
        proof {
            reveal_with_fuel(crate::model::json_fields_view, 3);
            reveal_with_fuel(crate::model::json_view, 2);
            let v = r->Object_0@;
            assert(v.drop_last().drop_last() =~= Seq::<(String, JsonValue)>::empty());
            assert(crate::model::json_fields_view(v) =~= seq![("@id"@, crate::model::JsonV::Str(t.subject@)), (t.predicate@, crate::model::JsonV::Str(t.object@))]);
        }
        r
    }
}

/// Position of the graph called `name`.
fn find_graph(gs: &Vec<NamedGraph>, name: &String) -> (r: Option<usize>)
    ensures
        match r {
            Some(k) => k < gs@.len() && gs@[k as int].name@ == name@,
            None => forall|k: int| 0 <= k < gs@.len() ==> gs@[k].name@ != name@,
        },
{
    let mut i: usize = 0;
    while i < gs.len()
        invariant
            i <= gs@.len(),
            forall|k: int| 0 <= k < i ==> gs@[k].name@ != name@,
        decreases gs.len() - i,
    {
        if gs[i].name == *name {
            return Some(i);
        }
        i += 1;
    }
    None
}

/// Position of the index entry for `key`.
fn find_key(idx: &Vec<(String, IndexList)>, key: &String) -> (r: Option<usize>)
    ensures
        match r {
            Some(k) => k < idx@.len() && idx@[k as int].0@ == key@,
            None => forall|k: int| 0 <= k < idx@.len() ==> idx@[k].0@ != key@,
        },
{
    let mut i: usize = 0;
    while i < idx.len()
        invariant
            i <= idx@.len(),
            forall|k: int| 0 <= k < i ==> idx@[k].0@ != key@,
        decreases idx.len() - i,
    {
        if idx[i].0 == *key {
            return Some(i);
        }
        i += 1;
    }
    None
}

/// Whether a slice holds `x`.
fn slice_contains(s: &[usize], x: usize) -> (r: bool)
    ensures
        r == s@.contains(x),
{
    let mut i: usize = 0;
    while i < s.len()
        invariant
            i <= s@.len(),
            forall|k: int| 0 <= k < i ==> s@[k] != x,
        decreases s.len() - i,
    {
        if s[i] == x {
            assert(s@[i as int] == x);
            return true;
        }
        i += 1;
    }
    false
}

/// The positions listed under `key` in an index, or none.
fn index_lookup_cloned(idx: &Vec<(String, IndexList)>, key: &str, Ghost(ts): Ghost<Seq<TripleView>>, Ghost(c): Ghost<int>) -> (r: IndexList)
    requires
        0 <= c <= 2,
        index_wf(idx@, ts, c),
    ensures
        lists_exactly(index_list_contents(r), ts, single_pattern(c, key@)),
{
    let k = key.to_string();
    let mut i: usize = 0;
    while i < idx.len()
        invariant
            i <= idx@.len(),
            k@ == key@,
            index_wf(idx@, ts, c),
            forall|j: int| 0 <= j < i ==> idx@[j].0@ != key@,
        decreases idx.len() - i,
    {
        if idx[i].0 == k {
            assert(idx@[i as int].0@ == key@);
            return index_list_clone(&idx[i].1);
        }
        i += 1;
    }
    let r = index_list_new();
    proof {
        assert forall|j: int| 0 <= j < ts.len() && pattern_matches(single_pattern(c, key@), ts[j]) implies index_list_contents(r).contains(j as usize) by {
            assert(index_has_key(idx@, component(ts[j], c)));
            let w = choose|w: int| 0 <= w < idx@.len() && idx@[w].0@ == component(ts[j], c);
            assert(component(ts[j], c) == key@);
        }
    }
    r
}

/// Record position `index` (the new last triple `t`) under `key` in an index.
fn index_add(idx: &mut Vec<(String, IndexList)>, key: String, index: usize, Ghost(ts): Ghost<Seq<TripleView>>, Ghost(t): Ghost<TripleView>, Ghost(c): Ghost<int>)
    requires
        0 <= c <= 2,
        index_wf(old(idx)@, ts, c),
        index == ts.len(),
        key@ == component(t, c),
    ensures
        index_wf(final(idx)@, ts.push(t), c),
{
    let ghost nts = ts.push(t);
    let found = find_key(idx, &key);
    if let Some(i) = found {
        let ghost old_idx = idx@;
        let (k, mut list) = idx.remove(i);
        let ghost old_list = index_list_contents(list);
        index_list_push(&mut list, index);
        idx.insert(i, (k, list));
        proof {
            assert forall|a: int, b: int| 0 <= a < b < idx@.len() implies idx@[a].0@ != idx@[b].0@ by {
                assert(idx@[a].0@ == old_idx[a].0@);
                assert(idx@[b].0@ == old_idx[b].0@);
            }
            assert forall|q: int| 0 <= q < idx@.len() implies lists_exactly(index_list_contents(#[trigger] idx@[q].1), nts, single_pattern(c, idx@[q].0@)) by {
                if q == i {
                    lemma_extend_list(old_list, ts, t, single_pattern(c, key@));
                } else {
                    assert(idx@[q] == old_idx[q]);
                    lemma_keep_list(index_list_contents(old_idx[q].1), ts, t, single_pattern(c, old_idx[q].0@));
                }
            }
            assert forall|j: int| 0 <= j < nts.len() implies index_has_key(idx@, component(nts[j], c)) by {
                if j < ts.len() {
                    assert(nts[j] == ts[j]);
                    assert(index_has_key(old_idx, component(ts[j], c)));
                    let q = choose|q: int| 0 <= q < old_idx.len() && old_idx[q].0@ == component(ts[j], c);
                    assert(idx@[q].0@ == old_idx[q].0@);
                } else {
                    assert(idx@[i as int].0@ == key@);
                }
            }
        }
    } else {
        let ghost old_idx = idx@;
        let mut list = index_list_new();
        index_list_push(&mut list, index);
        idx.push((key, list));
        proof {
            assert forall|a: int, b: int| 0 <= a < b < idx@.len() implies idx@[a].0@ != idx@[b].0@ by {
                assert(idx@[a] == old_idx[a]);
            }
            assert forall|q: int| 0 <= q < idx@.len() implies lists_exactly(index_list_contents(#[trigger] idx@[q].1), nts, single_pattern(c, idx@[q].0@)) by {
                if q == old_idx.len() {
                    assert(index_list_contents(idx@[q].1) =~= seq![index]);
                    assert forall|j: int| 0 <= j < nts.len() && pattern_matches(single_pattern(c, key@), nts[j]) implies seq![index].contains(j as usize) by {
                        if j < ts.len() {
                            assert(nts[j] == ts[j]);
                            assert(index_has_key(old_idx, component(ts[j], c)));
                            let w = choose|w: int| 0 <= w < old_idx.len() && old_idx[w].0@ == component(ts[j], c);
                        }
                        assert(seq![index][0] == index);
                    }
                } else {
                    assert(idx@[q] == old_idx[q]);
                    lemma_keep_list(index_list_contents(old_idx[q].1), ts, t, single_pattern(c, old_idx[q].0@));
                }
            }
            assert forall|j: int| 0 <= j < nts.len() implies index_has_key(idx@, component(nts[j], c)) by {
                if j < ts.len() {
                    assert(nts[j] == ts[j]);
                    assert(index_has_key(old_idx, component(ts[j], c)));
                    let q = choose|q: int| 0 <= q < old_idx.len() && old_idx[q].0@ == component(ts[j], c);
                    assert(idx@[q] == old_idx[q]);
                } else {
                    assert(idx@[old_idx.len() as int].0@ == key@);
                }
            }
        }
    }
}

proof fn lemma_extend_list(l: Seq<usize>, ts: Seq<TripleView>, t: TripleView, pat: PatternView)
    requires
        lists_exactly(l, ts, pat),
        pattern_matches(pat, t),
        ts.len() <= usize::MAX,
    ensures
        lists_exactly(l.push(ts.len() as usize), ts.push(t), pat),
{
    let nl = l.push(ts.len() as usize);
    let nts = ts.push(t);
    assert forall|k: int| 0 <= k < nl.len() implies nl[k] < nts.len() && pattern_matches(pat, nts[nl[k] as int]) by {
        if k < l.len() {
            assert(nl[k] == l[k]);
            assert(nts[l[k] as int] == ts[l[k] as int]);
        }
    }
    assert forall|i: int| 0 <= i < nts.len() && pattern_matches(pat, nts[i]) implies nl.contains(i as usize) by {
        if i < ts.len() {
            assert(nts[i] == ts[i]);
            let w = choose|w: int| 0 <= w < l.len() && l[w] == i as usize;
            assert(nl[w] == l[w]);
        } else {
            assert(nl[l.len() as int] == i as usize);
        }
    }
}

proof fn lemma_keep_list(l: Seq<usize>, ts: Seq<TripleView>, t: TripleView, pat: PatternView)
    requires
        lists_exactly(l, ts, pat),
        !pattern_matches(pat, t),
    ensures
        lists_exactly(l, ts.push(t), pat),
{
    let nts = ts.push(t);
    assert forall|k: int| 0 <= k < l.len() implies l[k] < nts.len() && pattern_matches(pat, nts[l[k] as int]) by {
        assert(nts[l[k] as int] == ts[l[k] as int]);
    }
    assert forall|i: int| 0 <= i < nts.len() && pattern_matches(pat, nts[i]) implies l.contains(i as usize) by {
        assert(nts[i] == ts[i]);
    }
}

/// Intersecting the lists of two patterns lists the positions of the
/// pattern that fixes both.
proof fn lemma_and_patterns(ts: Seq<TripleView>, pa: PatternView, pb: PatternView, pat: PatternView, r: Seq<usize>, a: Seq<usize>, b: Seq<usize>)
    requires
        forall|t: TripleView| pattern_matches(pat, t) <==> pattern_matches(pa, t) && pattern_matches(pb, t),
        lists_exactly(a, ts, pa),
        lists_exactly(b, ts, pb),
        ascending(r),
        forall|k: int| 0 <= k < r.len() ==> a.contains(#[trigger] r[k]) && b.contains(r[k]),
        forall|x: usize| a.contains(x) && b.contains(x) ==> r.contains(x),
    ensures
        lists_exactly(r, ts, pat),
{
    assert forall|k: int| 0 <= k < r.len() implies r[k] < ts.len() && pattern_matches(pat, ts[r[k] as int]) by {
        assert(a.contains(r[k]));
        let wa = choose|w: int| 0 <= w < a.len() && a[w] == r[k];
        let wb = choose|w: int| 0 <= w < b.len() && b[w] == r[k];
    }
    assert forall|i: int| 0 <= i < ts.len() && pattern_matches(pat, ts[i]) implies r.contains(i as usize) by {
        assert(a.contains(i as usize));
        assert(b.contains(i as usize));
    }
}

/// An exact ascending list of the matching positions, mapped to triples,
/// is the selection of the pattern.
proof fn lemma_exact_list_selects(l: Seq<usize>, ts: Seq<TripleView>, pat: PatternView)
    requires
        lists_exactly(l, ts, pat),
        ts.len() <= usize::MAX,
    ensures
        l.map_values(|i: usize| ts[i as int]) == select(ts, pat),
    decreases ts.len(),
{
    if ts.len() == 0 {
        if l.len() > 0 {
            assert(l[0] < ts.len());
        }
        assert(l.map_values(|i: usize| ts[i as int]) =~= Seq::<TripleView>::empty());
    } else {
        let n = (ts.len() - 1) as int;
        let pts = ts.drop_last();
        if pattern_matches(pat, ts[n]) {
            assert(l.contains(n as usize));
            let w = choose|w: int| 0 <= w < l.len() && l[w] == n as usize;
            let last = l.len() - 1;
            assert(w == last) by {
                if w < last {
                    assert(l[w] < l[last]);
                    assert(l[last] < ts.len());
                    assert(false);
                }
            }
            let pl = l.drop_last();
            assert(l =~= pl.push(n as usize));
            assert forall|k: int| 0 <= k < pl.len() implies pl[k] < pts.len() && pattern_matches(pat, pts[pl[k] as int]) by {
                assert(l[k] < l[l.len() - 1]);
                assert(pts[pl[k] as int] == ts[pl[k] as int]);
            }
            assert forall|i: int| 0 <= i < pts.len() && pattern_matches(pat, pts[i]) implies pl.contains(i as usize) by {
                assert(pts[i] == ts[i]);
                let v = choose|v: int| 0 <= v < l.len() && l[v] == i as usize;
                assert(v != l.len() - 1);
                assert(pl[v] == l[v]);
            }
            lemma_exact_list_selects(pl, pts, pat);
            assert(forall|k: int| 0 <= k < pl.len() ==> pts[pl[k] as int] == ts[pl[k] as int]);
            assert(pl.map_values(|i: usize| pts[i as int]) =~= pl.map_values(|i: usize| ts[i as int]));
            assert(l.map_values(|i: usize| ts[i as int]) =~= pl.map_values(|i: usize| ts[i as int]).push(ts[n]));
        } else {
            assert forall|k: int| 0 <= k < l.len() implies l[k] < pts.len() && pattern_matches(pat, pts[l[k] as int]) by {
                assert(l[k] != n);
                assert(pts[l[k] as int] == ts[l[k] as int]);
            }
            assert forall|i: int| 0 <= i < pts.len() && pattern_matches(pat, pts[i]) implies l.contains(i as usize) by {
                assert(pts[i] == ts[i]);
            }
            lemma_exact_list_selects(l, pts, pat);
            assert(forall|k: int| 0 <= k < l.len() ==> pts[l[k] as int] == ts[l[k] as int]);
            assert(l.map_values(|i: usize| pts[i as int]) =~= l.map_values(|i: usize| ts[i as int]));
        }
    }
}

proof fn lemma_lookup_at(gs: Seq<NamedGraph>, k: int)
    requires
        graphs_wf(gs),
        0 <= k < gs.len(),
    ensures
        graph_lookup(gs, gs[k].name@) == Some(gs[k]@),
{
    let n = gs[k].name@;
    let c = choose|c: int| 0 <= c < gs.len() && gs[c].name@ == n;
    if c != k {
        if c < k {
            assert(gs[c].name@ != gs[k].name@);
        } else {
            assert(gs[k].name@ != gs[c].name@);
        }
    }
}

proof fn lemma_lookup_same_names(new: Seq<NamedGraph>, old: Seq<NamedGraph>, n: Seq<char>, k: int)
    requires
        graphs_wf(new),
        graphs_wf(old),
        new.len() == old.len(),
        0 <= k < new.len(),
        forall|j: int| 0 <= j < new.len() && j != k ==> new[j] == old[j],
        new[k].name@ == old[k].name@,
        n != new[k].name@,
    ensures
        graph_lookup(new, n) == graph_lookup(old, n),
{
    if exists|j: int| 0 <= j < old.len() && old[j].name@ == n {
        let j = choose|j: int| 0 <= j < old.len() && old[j].name@ == n;
        assert(new[j].name@ == n);
        let c1 = choose|c: int| 0 <= c < new.len() && new[c].name@ == n;
        assert(c1 == j) by {
            if c1 < j { assert(new[c1].name@ != new[j].name@); }
            if c1 > j { assert(new[j].name@ != new[c1].name@); }
        }
        assert(c1 != k);
    }
    if exists|j: int| 0 <= j < new.len() && new[j].name@ == n {
        let j = choose|j: int| 0 <= j < new.len() && new[j].name@ == n;
        assert(j != k);
        assert(old[j].name@ == n);
    }
}

proof fn lemma_lookup_push(old: Seq<NamedGraph>, g: NamedGraph, n: Seq<char>)
    requires
        n != g.name@,
        graphs_wf(old),
    ensures
        graph_lookup(old.push(g), n) == graph_lookup(old, n),
{
    let new = old.push(g);
    if exists|j: int| 0 <= j < old.len() && old[j].name@ == n {
        let j = choose|j: int| 0 <= j < old.len() && old[j].name@ == n;
        assert(new[j].name@ == n);
        let c1 = choose|c: int| 0 <= c < new.len() && new[c].name@ == n;
        assert(c1 < old.len());
        assert(new[c1] == old[c1]);
        let c0 = choose|c: int| 0 <= c < old.len() && old[c].name@ == n;
        assert(c0 == c1) by {
            if c0 < c1 { assert(old[c0].name@ != old[c1].name@); }
            if c0 > c1 { assert(old[c1].name@ != old[c0].name@); }
        }
    }
    if exists|j: int| 0 <= j < new.len() && new[j].name@ == n {
        let j = choose|j: int| 0 <= j < new.len() && new[j].name@ == n;
        assert(j < old.len());
        assert(old[j].name@ == n);
    }
}

proof fn lemma_name_set_len(gs: Seq<NamedGraph>)
    requires
        graphs_wf(gs),
    ensures
        graph_name_set(gs).len() == gs.len(),
        graph_name_set(gs).finite(),
    decreases gs.len(),
{
    if gs.len() == 0 {
        assert(graph_name_set(gs) =~= Set::<Seq<char>>::empty());
    } else {
        let p = gs.drop_last();
        assert(graphs_wf(p));
        lemma_name_set_len(p);
        assert(graph_name_set(gs) =~= graph_name_set(p).insert(gs.last().name@)) by {
            assert forall|n: Seq<char>| graph_name_set(gs).contains(n) <==> graph_name_set(p).insert(gs.last().name@).contains(n) by {
                if graph_name_set(p).contains(n) {
                    let j = choose|j: int| 0 <= j < p.len() && p[j].name@ == n;
                    assert(gs[j].name@ == n);
                }
                if graph_name_set(gs).contains(n) {
                    let j = choose|j: int| 0 <= j < gs.len() && gs[j].name@ == n;
                    if j < p.len() {
                        assert(p[j].name@ == n);
                    }
                }
            }
        }
        assert(!graph_name_set(p).contains(gs.last().name@)) by {
            if graph_name_set(p).contains(gs.last().name@) {
                let j = choose|j: int| 0 <= j < p.len() && p[j].name@ == gs.last().name@;
                assert(gs[j].name@ != gs[gs.len() - 1].name@);
            }
        }
    }
}

impl Clone for GraphStore {
    fn clone(&self) -> (r: Self)
        ensures
            r.default_triples() == self.default_triples(),
    {
        let mut graphs: Vec<NamedGraph> = Vec::new();
        let mut i: usize = 0;
        while i < self.graphs.len()
            invariant
                i <= self.graphs@.len(),
            decreases self.graphs.len() - i,
        {
            graphs.push(self.graphs[i].clone());
            i += 1;
        }
        GraphStore {
            graphs,
            default_graph: NamedGraph { name: self.default_graph.name.clone(), triples: clone_triples(&self.default_graph.triples) },
            subject_index: clone_index(&self.subject_index),
            predicate_index: clone_index(&self.predicate_index),
            object_index: clone_index(&self.object_index),
        }
    }
}

fn clone_index(idx: &Vec<(String, IndexList)>) -> (r: Vec<(String, IndexList)>)
    ensures
        r@.len() == idx@.len(),
        forall|k: int| 0 <= k < r@.len() ==> (#[trigger] r@[k]).0@ == idx@[k].0@ && index_list_contents(r@[k].1) == index_list_contents(idx@[k].1),
{
    let mut r: Vec<(String, IndexList)> = Vec::new();
    let mut i: usize = 0;
    while i < idx.len()
        invariant
            i <= idx@.len(),
            r@.len() == i,
            forall|k: int| 0 <= k < i ==> (#[trigger] r@[k]).0@ == idx@[k].0@ && index_list_contents(r@[k].1) == index_list_contents(idx@[k].1),
        decreases idx.len() - i,
    {
        r.push((idx[i].0.clone(), index_list_clone(&idx[i].1)));
        i += 1;
    }
    r
}

impl Default for GraphStore {
    /// An empty store whose default graph has an empty name.
    fn default() -> (r: Self)
        ensures
            r.wf(),
            r.default_triples() == Seq::<TripleView>::empty(),
            r.default_name() == Seq::<char>::empty(),
            r.names() == Set::<Seq<char>>::empty(),
    {
        let r = GraphStore {
            graphs: Vec::new(),
            default_graph: NamedGraph { name: String::new(), triples: Vec::new() },
            subject_index: Vec::new(),
            predicate_index: Vec::new(),
            object_index: Vec::new(),
        };
        proof {
            assert(r.default_triples() =~= Seq::<TripleView>::empty());
            assert(r.names() =~= Set::<Seq<char>>::empty());
        }
        r
    }
}

/// Finding after adding: the triples that match a pattern after a triple
/// was added are those that matched before, followed by the new triple
/// when it matches.
pub proof fn law_find_after_add(ts: Seq<TripleView>, t: TripleView, pat: PatternView)
    ensures
        select(ts.push(t), pat) == if pattern_matches(pat, t) { select(ts, pat).push(t) } else { select(ts, pat) },
{
    assert(ts.push(t).drop_last() =~= ts);
}

/// Finding selects exactly: a triple is found if and only if it is stored
/// and matches the pattern.
pub proof fn law_find_exact(ts: Seq<TripleView>, pat: PatternView)
    ensures
        forall|x: TripleView| #[trigger] select(ts, pat).contains(x) <==> (ts.contains(x) && pattern_matches(pat, x)),
    decreases ts.len(),
{
    if ts.len() > 0 {
        let rest = ts.drop_last();
        law_find_exact(rest, pat);
        assert(ts =~= rest.push(ts.last()));
        assert forall|x: TripleView| #[trigger] select(ts, pat).contains(x) <==> (ts.contains(x) && pattern_matches(pat, x)) by {
            let sr = select(rest, pat);
            if select(ts, pat).contains(x) {
                if pattern_matches(pat, ts.last()) {
                    assert(select(ts, pat) == sr.push(ts.last()));
                    let q = choose|q: int| 0 <= q < sr.len() + 1 && sr.push(ts.last())[q] == x;
                    if q < sr.len() {
                        assert(sr.contains(x));
                        let j = choose|j: int| 0 <= j < rest.len() && rest[j] == x;
                        assert(ts[j] == x);
                    } else {
                        assert(ts[ts.len() - 1] == x);
                    }
                } else {
                    assert(sr.contains(x));
                    let j = choose|j: int| 0 <= j < rest.len() && rest[j] == x;
                    assert(ts[j] == x);
                }
            }
            if ts.contains(x) && pattern_matches(pat, x) {
                let j = choose|j: int| 0 <= j < ts.len() && ts[j] == x;
                if j < rest.len() {
                    assert(rest[j] == x);
                    assert(sr.contains(x));
                    let q = choose|q: int| 0 <= q < sr.len() && sr[q] == x;
                    if pattern_matches(pat, ts.last()) {
                        assert(sr.push(ts.last())[q] == x);
                    }
                } else {
                    assert(select(ts, pat) == sr.push(ts.last()));
                    assert(sr.push(ts.last())[sr.len() as int] == x);
                }
            }
        }
    }
}

} // verus!
