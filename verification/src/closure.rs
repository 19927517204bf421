//! Reachability over a binary relation given as a list of pairs: the
//! engine behind every class and property hierarchy of the reasoners.

use vstd::prelude::*;

verus! {

/// A value that can stand as a node of a relation: it has a mathematical
/// identity, an equality test on it and a copy that keeps it.
pub trait GraphNode: Sized {
    type V;

    spec fn node_view(&self) -> Self::V;

    fn same_node(&self, other: &Self) -> (r: bool)
        ensures
            r == (self.node_view() == other.node_view()),
    ;

    fn copy_node(&self) -> (r: Self)
        ensures
            r.node_view() == self.node_view(),
    ;
}

impl GraphNode for String {
    type V = Seq<char>;

    open spec fn node_view(&self) -> Seq<char> {
        self@
    }

    fn same_node(&self, other: &Self) -> (r: bool) {
        *self == *other
    }

    fn copy_node(&self) -> (r: Self) {
        self.clone()
    }
}

/// The views of the nodes of a sequence.
pub open spec fn node_views<T: GraphNode>(s: Seq<T>) -> Seq<T::V> {
    s.map_values(|x: T| x.node_view())
}

/// The views of a list of pairs.
pub open spec fn edge_views<K: GraphNode, T: GraphNode>(s: Seq<(K, T)>) -> Seq<(K::V, T::V)> {
    s.map_values(|p: (K, T)| (p.0.node_view(), p.1.node_view()))
}

/// `p` is a path of at least one step along `edges`.
pub open spec fn is_path<V>(edges: Seq<(V, V)>, p: Seq<V>) -> bool {
    &&& p.len() >= 2
    &&& forall|i: int| 0 <= i < p.len() - 1 ==> edges.contains((#[trigger] p[i], p[i + 1]))
}

/// `b` can be reached from `a` in one or more steps along `edges`.
pub open spec fn reaches<V>(edges: Seq<(V, V)>, a: V, b: V) -> bool {
    exists|p: Seq<V>| #[trigger] is_path(edges, p) && p[0] == a && p.last() == b
}

/// No value occurs twice.
pub open spec fn distinct<V>(s: Seq<V>) -> bool {
    forall|i: int, j: int| 0 <= i < j < s.len() ==> s[i] != s[j]
}

/// How many pairs have a target that is not yet in `vis`.
pub open spec fn unvisited<V>(edges: Seq<(V, V)>, vis: Seq<V>) -> nat
    decreases edges.len(),
{
    if edges.len() == 0 {
        0
    } else {
        unvisited(edges.drop_last(), vis) + if vis.contains(edges.last().1) {
            0nat
        } else {
            1nat
        }
    }
}

proof fn lemma_unvisited_mono<V>(edges: Seq<(V, V)>, vis: Seq<V>, vis2: Seq<V>)
    requires
        forall|x: V| vis.contains(x) ==> vis2.contains(x),
    ensures
        unvisited(edges, vis2) <= unvisited(edges, vis),
    decreases edges.len(),
{
    if edges.len() > 0 {
        lemma_unvisited_mono(edges.drop_last(), vis, vis2);
    }
}

proof fn lemma_unvisited_push<V>(edges: Seq<(V, V)>, vis: Seq<V>, k: int)
    requires
        0 <= k < edges.len(),
        !vis.contains(edges[k].1),
    ensures
        unvisited(edges, vis.push(edges[k].1)) < unvisited(edges, vis),
    decreases edges.len(),
{
    let y = edges[k].1;
    let vis2 = vis.push(y);
    assert forall|x: V| vis.contains(x) implies vis2.contains(x) by {
        let i = choose|i: int| 0 <= i < vis.len() && vis[i] == x;
        assert(vis2[i] == x);
    }
    assert(vis2.contains(y)) by {
        assert(vis2[vis.len() as int] == y);
    }
    if k == edges.len() - 1 {
        lemma_unvisited_mono(edges.drop_last(), vis, vis2);
    } else {
        assert(edges.drop_last()[k] == edges[k]);
        lemma_unvisited_push(edges.drop_last(), vis, k);
        if !vis.contains(edges.last().1) {
        } else {
            assert(vis2.contains(edges.last().1)) by {
                let i = choose|i: int| 0 <= i < vis.len() && vis[i] == edges.last().1;
                assert(vis2[i] == edges.last().1);
            }
        }
    }
}

/// A single pair is a path.
pub proof fn lemma_edge_reaches<V>(edges: Seq<(V, V)>, a: V, b: V)
    requires
        edges.contains((a, b)),
    ensures
        reaches(edges, a, b),
{
    let p = seq![a, b];
    assert(p[0] == a && p[1] == b);
    assert(is_path(edges, p));
}

/// A path followed by one more pair is a path.
pub proof fn lemma_reaches_step<V>(edges: Seq<(V, V)>, a: V, b: V, c: V)
    requires
        reaches(edges, a, b),
        edges.contains((b, c)),
    ensures
        reaches(edges, a, c),
{
    let p = choose|p: Seq<V>| #[trigger] is_path(edges, p) && p[0] == a && p.last() == b;
    let q = p.push(c);
    assert forall|i: int| 0 <= i < q.len() - 1 implies edges.contains((#[trigger] q[i], q[i + 1])) by {
        if i < p.len() - 1 {
            assert(q[i] == p[i] && q[i + 1] == p[i + 1]);
        } else {
            assert(q[i] == b && q[i + 1] == c);
        }
    }
    assert(is_path(edges, q));
}

/// Reachability is transitive.
#[verifier::spinoff_prover]
#[verifier::rlimit(30)]
pub proof fn lemma_reaches_transitive<V>(edges: Seq<(V, V)>, a: V, b: V, c: V)
    requires
        reaches(edges, a, b),
        reaches(edges, b, c),
    ensures
        reaches(edges, a, c),
{
    let p = choose|p: Seq<V>| #[trigger] is_path(edges, p) && p[0] == a && p.last() == b;
    let q = choose|q: Seq<V>| #[trigger] is_path(edges, q) && q[0] == b && q.last() == c;
    let r = p + q.drop_first();
    assert forall|i: int| 0 <= i < r.len() - 1 implies edges.contains((#[trigger] r[i], r[i + 1])) by {
        if i < p.len() - 1 {
            assert(r[i] == p[i] && r[i + 1] == p[i + 1]);
        } else if i == p.len() - 1 {
            assert(r[i] == b && q[0] == b);
            assert(r[i + 1] == q[1]);
            assert(edges.contains((q[0], q[1])));
        } else {
            let j = i - p.len() + 1;
            assert(r[i] == q[j] && r[i + 1] == q[j + 1]);
        }
    }
    assert(is_path(edges, r));
    assert(r.last() == c);
}

/// Whether `v` holds a node equal to `x`.
pub fn contains_node<T: GraphNode>(v: &Vec<T>, x: &T) -> (r: bool)
    ensures
        r == node_views(v@).contains(x.node_view()),
{
    let mut i: usize = 0;
    while i < v.len()
        invariant
            i <= v@.len(),
            forall|j: int| 0 <= j < i ==> v@[j].node_view() != x.node_view(),
        decreases v.len() - i,
    {
        if v[i].same_node(x) {
            assert(node_views(v@)[i as int] == x.node_view());
            return true;
        }
        i += 1;
    }
    false
}

/// Add to `visited` every target of a pair whose source is `u`.
fn expand<T: GraphNode>(pairs: &Vec<(T, T)>, u: &T, visited: &mut Vec<T>, Ghost(s): Ghost<T::V>)
    requires
        distinct(node_views(old(visited)@)),
        u.node_view() == s || reaches(edge_views(pairs@), s, u.node_view()),
        forall|i: int| 0 <= i < old(visited)@.len() ==> reaches(edge_views(pairs@), s, #[trigger] node_views(old(visited)@)[i]),
    ensures
        distinct(node_views(final(visited)@)),
        final(visited)@.len() >= old(visited)@.len(),
        forall|i: int| 0 <= i < old(visited)@.len() ==> final(visited)@[i] == old(visited)@[i],
        forall|i: int| 0 <= i < final(visited)@.len() ==> reaches(edge_views(pairs@), s, #[trigger] node_views(final(visited)@)[i]),
        targets_in(pairs@, u.node_view(), node_views(final(visited)@)),
        unvisited(edge_views(pairs@), node_views(final(visited)@)) + final(visited)@.len() <= unvisited(edge_views(pairs@), node_views(old(visited)@)) + old(visited)@.len(),
{
    let ghost es = edge_views(pairs@);
    let ghost start = visited@;
    let mut k: usize = 0;
    while k < pairs.len()
        invariant
            k <= pairs@.len(),
            es == edge_views(pairs@),
            u.node_view() == s || reaches(es, s, u.node_view()),
            distinct(node_views(visited@)),
            visited@.len() >= start.len(),
            forall|i: int| 0 <= i < start.len() ==> visited@[i] == start[i],
            forall|i: int| 0 <= i < visited@.len() ==> reaches(es, s, #[trigger] node_views(visited@)[i]),
            forall|j: int| 0 <= j < k && pairs@[j].0.node_view() == u.node_view() ==> node_views(visited@).contains(#[trigger] pairs@[j].1.node_view()),
            unvisited(es, node_views(visited@)) + visited@.len() <= unvisited(es, node_views(start)) + start.len(),
        decreases pairs.len() - k,
    {
        let ghost before = visited@;
        if pairs[k].0.same_node(u) && !contains_node(visited, &pairs[k].1) {
            let y = pairs[k].1.copy_node();
            visited.push(y);
            proof {
                let yv = y.node_view();
                assert(es[k as int] == (u.node_view(), yv));
                assert(es.contains((u.node_view(), yv)));
                if u.node_view() == s {
                    lemma_edge_reaches(es, s, yv);
                } else {
                    lemma_reaches_step(es, s, u.node_view(), yv);
                }
                assert(node_views(visited@) =~= node_views(before).push(yv));
                assert forall|i: int| 0 <= i < visited@.len() implies reaches(es, s, #[trigger] node_views(visited@)[i]) by {
                    if i < before.len() {
                        assert(node_views(visited@)[i] == node_views(before)[i]);
                    }
                }
                assert forall|a: int, b: int| 0 <= a < b < visited@.len() implies node_views(visited@)[a] != node_views(visited@)[b] by {
                    if b == before.len() {
                        assert(node_views(before)[a] == node_views(visited@)[a]);
                    }
                }
                lemma_unvisited_push(es, node_views(before), k as int);
                assert forall|j: int| 0 <= j < k + 1 && pairs@[j].0.node_view() == u.node_view() implies node_views(visited@).contains(#[trigger] pairs@[j].1.node_view()) by {
                    if j < k {
                        let w = choose|w: int| 0 <= w < before.len() && node_views(before)[w] == pairs@[j].1.node_view();
                        assert(node_views(visited@)[w] == node_views(before)[w]);
                    } else {
                        assert(node_views(visited@)[before.len() as int] == yv);
                    }
                }
            }
        }
        k += 1;
    }
    proof {
        reveal(targets_in);
    }
}

/// All targets of the pairs whose source is `u` lie in `vis`.
#[verifier::opaque]
pub open spec fn targets_in<T: GraphNode>(pairs: Seq<(T, T)>, u: T::V, vis: Seq<T::V>) -> bool {
    forall|k: int| 0 <= k < pairs.len() && pairs[k].0.node_view() == u ==> vis.contains(#[trigger] pairs[k].1.node_view())
}

proof fn lemma_targets_in_grow<T: GraphNode>(pairs: Seq<(T, T)>, u: T::V, vis: Seq<T::V>, vis2: Seq<T::V>)
    requires
        targets_in(pairs, u, vis),
        vis.len() <= vis2.len(),
        forall|i: int| 0 <= i < vis.len() ==> vis2[i] == vis[i],
    ensures
        targets_in(pairs, u, vis2),
{
    reveal(targets_in);
    assert forall|k: int| 0 <= k < pairs.len() && pairs[k].0.node_view() == u implies vis2.contains(#[trigger] pairs[k].1.node_view()) by {
        let w = choose|w: int| 0 <= w < vis.len() && vis[w] == pairs[k].1.node_view();
        assert(vis2[w] == vis[w]);
    }
}

/// Every node reachable from `s` in one or more steps, each once.
pub fn reachable_from<T: GraphNode>(pairs: &Vec<(T, T)>, s: &T) -> (r: Vec<T>)
    ensures
        distinct(node_views(r@)),
        forall|v: T::V| node_views(r@).contains(v) <==> reaches(edge_views(pairs@), s.node_view(), v),
{
    let ghost es = edge_views(pairs@);
    let ghost sv = s.node_view();
    let mut visited: Vec<T> = Vec::new();
    proof {
        assert(node_views(visited@) =~= Seq::<T::V>::empty());
    }
    expand(pairs, s, &mut visited, Ghost(sv));
    let mut head: usize = 0;
    while head < visited.len()
        invariant
            head <= visited@.len(),
            es == edge_views(pairs@),
            sv == s.node_view(),
            distinct(node_views(visited@)),
            forall|i: int| 0 <= i < visited@.len() ==> reaches(es, sv, #[trigger] node_views(visited@)[i]),
            targets_in(pairs@, sv, node_views(visited@)),
            forall|h: int| 0 <= h < head ==> targets_in(pairs@, #[trigger] node_views(visited@)[h], node_views(visited@)),
        decreases unvisited(es, node_views(visited@)) + visited@.len() - head,
    {
        let ghost before = node_views(visited@);
        let u = visited[head].copy_node();
        proof {
            assert(before[head as int] == u.node_view());
        }
        expand(pairs, &u, &mut visited, Ghost(sv));
        proof {
            let now = node_views(visited@);
            assert forall|i: int| 0 <= i < before.len() implies now[i] == before[i] by {}
            lemma_targets_in_grow(pairs@, sv, before, now);
            assert forall|h: int| 0 <= h < head + 1 implies targets_in(pairs@, #[trigger] now[h], now) by {
                assert(now[h] == before[h]);
                if h < head {
                    lemma_targets_in_grow(pairs@, before[h], before, now);
                }
            }
        }
        head += 1;
    }
    proof {
        let vis = node_views(visited@);
        assert forall|v: T::V| reaches(es, sv, v) implies vis.contains(v) by {
            let p = choose|p: Seq<T::V>| #[trigger] is_path(es, p) && p[0] == sv && p.last() == v;
            lemma_path_in_closed(pairs@, vis, sv, p);
        }
        assert forall|v: T::V| vis.contains(v) implies reaches(es, sv, v) by {
            let i = choose|i: int| 0 <= i < visited@.len() && vis[i] == v;
        }
    }
    visited
}

/// Every node after the first of a path from `s` lies in a set that holds
/// the targets of the pairs from `s` and of the pairs from its own members.
proof fn lemma_path_in_closed<T: GraphNode>(pairs: Seq<(T, T)>, vis: Seq<T::V>, s: T::V, p: Seq<T::V>)
    requires
        is_path(edge_views(pairs), p),
        p[0] == s,
        targets_in(pairs, s, vis),
        forall|h: int| 0 <= h < vis.len() ==> targets_in(pairs, #[trigger] vis[h], vis),
    ensures
        vis.contains(p.last()),
    decreases p.len(),
{
    reveal(targets_in);
    let es = edge_views(pairs);
    let n = p.len();
    let last_edge = (p[n - 2], p[n - 1]);
    assert(es.contains((p[n - 2], p[n - 1])));
    let k = choose|k: int| 0 <= k < es.len() && es[k] == last_edge;
    assert(pairs[k].0.node_view() == p[n - 2] && pairs[k].1.node_view() == p[n - 1]);
    if n == 2 {
    } else {
        let q = p.drop_last();
        assert forall|i: int| 0 <= i < q.len() - 1 implies es.contains((#[trigger] q[i], q[i + 1])) by {
            assert(q[i] == p[i] && q[i + 1] == p[i + 1]);
        }
        lemma_path_in_closed(pairs, vis, s, q);
        let h = choose|h: int| 0 <= h < vis.len() && vis[h] == q.last();
        assert(targets_in(pairs, vis[h], vis));
        assert(pairs[k].0.node_view() == vis[h]);
    }
}

/// Reachability depends only on which pairs occur.
pub proof fn lemma_same_edges_same_reach<V>(e1: Seq<(V, V)>, e2: Seq<(V, V)>)
    requires
        forall|a: V, b: V| e1.contains((a, b)) <==> e2.contains((a, b)),
    ensures
        forall|a: V, b: V| reaches(e1, a, b) <==> reaches(e2, a, b),
{
    assert forall|a: V, b: V| reaches(e1, a, b) implies reaches(e2, a, b) by {
        let p = choose|p: Seq<V>| #[trigger] is_path(e1, p) && p[0] == a && p.last() == b;
        assert forall|i: int| 0 <= i < p.len() - 1 implies e2.contains((#[trigger] p[i], p[i + 1])) by {
            assert(e1.contains((p[i], p[i + 1])));
        }
        assert(is_path(e2, p));
    }
    assert forall|a: V, b: V| reaches(e2, a, b) implies reaches(e1, a, b) by {
        let p = choose|p: Seq<V>| #[trigger] is_path(e2, p) && p[0] == a && p.last() == b;
        assert forall|i: int| 0 <= i < p.len() - 1 implies e1.contains((#[trigger] p[i], p[i + 1])) by {
            assert(e2.contains((p[i], p[i + 1])));
        }
        assert(is_path(e1, p));
    }
}

/// Adding pairs keeps every path.
pub proof fn lemma_reaches_mono<V>(e1: Seq<(V, V)>, e2: Seq<(V, V)>, a: V, b: V)
    requires
        reaches(e1, a, b),
        forall|x: V, y: V| e1.contains((x, y)) ==> e2.contains((x, y)),
    ensures
        reaches(e2, a, b),
{
    let p = choose|p: Seq<V>| #[trigger] is_path(e1, p) && p[0] == a && p.last() == b;
    assert forall|i: int| 0 <= i < p.len() - 1 implies e2.contains((#[trigger] p[i], p[i + 1])) by {
        assert(e1.contains((p[i], p[i + 1])));
    }
    assert(is_path(e2, p));
}

/// Whatever `a` reaches, `a` has a pair of its own.
pub proof fn lemma_reaches_has_edge<V>(edges: Seq<(V, V)>, a: V, b: V)
    requires
        reaches(edges, a, b),
    ensures
        exists|x: V| edges.contains((a, x)),
{
    let p = choose|p: Seq<V>| #[trigger] is_path(edges, p) && p[0] == a && p.last() == b;
    assert(edges.contains((p[0], p[1])));
}

} // verus!
