//! Hierarchies: a map from a node to the set of nodes above it, kept as a
//! list of entries with distinct keys and duplicate-free value lists.

use vstd::prelude::*;
use crate::closure::{GraphNode, node_views, edge_views, reaches, distinct, reachable_from, contains_node};

verus! {

/// The node `b` is listed above `a`.
pub open spec fn in_hier<K: GraphNode, T: GraphNode>(h: Seq<(K, Vec<T>)>, a: K::V, b: T::V) -> bool {
    exists|k: int| 0 <= k < h.len() && h[k].0.node_view() == a && #[trigger] node_views(h[k].1@).contains(b)
}

/// The node `a` has an entry.
pub open spec fn has_key<K: GraphNode, T: GraphNode>(h: Seq<(K, Vec<T>)>, a: K::V) -> bool {
    exists|k: int| 0 <= k < h.len() && #[trigger] h[k].0.node_view() == a
}

/// Keys are distinct and no value list repeats a node.
pub open spec fn hier_wf<K: GraphNode, T: GraphNode>(h: Seq<(K, Vec<T>)>) -> bool {
    &&& forall|i: int, j: int| 0 <= i < j < h.len() ==> h[i].0.node_view() != h[j].0.node_view()
    &&& forall|k: int| 0 <= k < h.len() ==> distinct(node_views(#[trigger] h[k].1@))
}

/// The pairs (key, value) of a hierarchy, entry by entry.
pub open spec fn hier_edges<K: GraphNode, T: GraphNode>(h: Seq<(K, Vec<T>)>) -> Seq<(K::V, T::V)>
    decreases h.len(),
{
    if h.len() == 0 {
        Seq::empty()
    } else {
        hier_edges(h.drop_last()) + node_views(h.last().1@).map_values(|b: T::V| (h.last().0.node_view(), b))
    }
}

pub proof fn lemma_hier_edges_contains<K: GraphNode, T: GraphNode>(h: Seq<(K, Vec<T>)>, a: K::V, b: T::V)
    ensures
        hier_edges(h).contains((a, b)) <==> in_hier(h, a, b),
    decreases h.len(),
{
    if h.len() > 0 {
        let p = h.drop_last();
        lemma_hier_edges_contains(p, a, b);
        let last = node_views(h.last().1@).map_values(|x: T::V| (h.last().0.node_view(), x));
        let e = hier_edges(h);
        assert(e == hier_edges(p) + last);
        if hier_edges(p).contains((a, b)) {
            let i = choose|i: int| 0 <= i < hier_edges(p).len() && hier_edges(p)[i] == (a, b);
            assert(e[i] == (a, b));
            let k = choose|k: int| 0 <= k < p.len() && p[k].0.node_view() == a && #[trigger] node_views(p[k].1@).contains(b);
            assert(h[k] == p[k]);
        }
        if last.contains((a, b)) {
            let i = choose|i: int| 0 <= i < last.len() && last[i] == (a, b);
            assert(e[hier_edges(p).len() + i] == (a, b));
            assert(node_views(h.last().1@)[i] == b);
            assert(node_views(h[h.len() - 1].1@).contains(b));
        }
        if e.contains((a, b)) {
            let i = choose|i: int| 0 <= i < e.len() && e[i] == (a, b);
            if i < hier_edges(p).len() {
                assert(hier_edges(p)[i] == (a, b));
            } else {
                assert(last[i - hier_edges(p).len()] == (a, b));
            }
        }
        if in_hier(h, a, b) {
            let k = choose|k: int| 0 <= k < h.len() && h[k].0.node_view() == a && #[trigger] node_views(h[k].1@).contains(b);
            if k < p.len() {
                assert(p[k] == h[k]);
            } else {
                let j = choose|j: int| 0 <= j < node_views(h.last().1@).len() && node_views(h.last().1@)[j] == b;
                assert(last[j] == (a, b));
            }
        }
    } else {
        assert(hier_edges(h) =~= Seq::<(K::V, T::V)>::empty());
    }
}

/// Position of the entry for `a`.
pub fn hier_find<K: GraphNode, T: GraphNode>(h: &Vec<(K, Vec<T>)>, a: &K) -> (r: Option<usize>)
    ensures
        match r {
            Some(k) => k < h@.len() && h@[k as int].0.node_view() == a.node_view(),
            None => !has_key(h@, a.node_view()),
        },
{
    let mut i: usize = 0;
    while i < h.len()
        invariant
            i <= h@.len(),
            forall|j: int| 0 <= j < i ==> h@[j].0.node_view() != a.node_view(),
        decreases h.len() - i,
    {
        if h[i].0.same_node(a) {
            return Some(i);
        }
        i += 1;
    }
    None
}

/// The nodes listed above `a`, if `a` has an entry.
pub fn hier_get<'a, K: GraphNode, T: GraphNode>(h: &'a Vec<(K, Vec<T>)>, a: &K) -> (r: Option<&'a Vec<T>>)
    requires
        hier_wf(h@),
    ensures
        match r {
            Some(v) => has_key(h@, a.node_view()) && forall|b: T::V| node_views(v@).contains(b) <==> in_hier(h@, a.node_view(), b),
            None => !has_key(h@, a.node_view()) && forall|b: T::V| !in_hier(h@, a.node_view(), b),
        },
{
    match hier_find(h, a) {
        Some(k) => {
            proof {
                assert forall|b: T::V| in_hier(h@, a.node_view(), b) implies node_views(h@[k as int].1@).contains(b) by {
                    let j = choose|j: int| 0 <= j < h@.len() && h@[j].0.node_view() == a.node_view() && #[trigger] node_views(h@[j].1@).contains(b);
                    if j != k {
                        if j < k { assert(h@[j].0.node_view() != h@[k as int].0.node_view()); }
                        else { assert(h@[k as int].0.node_view() != h@[j].0.node_view()); }
                    }
                }
            }
            Some(&h[k].1)
        },
        None => None,
    }
}

/// Add `b` above `a`.
pub fn hier_add<K: GraphNode, T: GraphNode>(h: &mut Vec<(K, Vec<T>)>, a: K, b: T)
    requires
        hier_wf(old(h)@),
    ensures
        hier_wf(final(h)@),
        forall|x: K::V| has_key(final(h)@, x) <==> (has_key(old(h)@, x) || x == a.node_view()),
        forall|x: K::V, y: T::V| in_hier(final(h)@, x, y) <==> (in_hier(old(h)@, x, y) || (x == a.node_view() && y == b.node_view())),
{
    let ghost av = a.node_view();
    let ghost bv = b.node_view();
    let ghost old_h = h@;
    match hier_find(h, &a) {
        Some(k) => {
            let (key, mut vals) = h.remove(k);
            let ghost old_vals = vals@;
            if !contains_node(&vals, &b) {
                vals.push(b);
                proof {
                    assert(node_views(vals@) =~= node_views(old_vals).push(bv));
                    assert forall|i: int, j: int| 0 <= i < j < vals@.len() implies node_views(vals@)[i] != node_views(vals@)[j] by {
                        if j == old_vals.len() {
                            assert(node_views(vals@)[i] == node_views(old_vals)[i]);
                        } else {
                            assert(node_views(vals@)[i] == node_views(old_vals)[i]);
                            assert(node_views(vals@)[j] == node_views(old_vals)[j]);
                        }
                    }
                }
            }
            h.insert(k, (key, vals));
            proof {
                let nh = h@;
                assert(nh.len() == old_h.len());
                assert forall|i: int| 0 <= i < nh.len() && i != k implies nh[i] == old_h[i] by {}
                assert(nh[k as int].0.node_view() == av);
                assert forall|x: T::V| node_views(nh[k as int].1@).contains(x) <==> (node_views(old_h[k as int].1@).contains(x) || x == bv) by {
                    if node_views(old_h[k as int].1@).contains(x) {
                        let w = choose|w: int| 0 <= w < old_vals.len() && node_views(old_vals)[w] == x;
                        assert(node_views(nh[k as int].1@)[w] == x);
                    }
                    if x == bv && !node_views(old_vals).contains(bv) {
                        assert(node_views(nh[k as int].1@)[old_vals.len() as int] == bv);
                    }
                    if node_views(nh[k as int].1@).contains(x) {
                        let w = choose|w: int| 0 <= w < nh[k as int].1@.len() && node_views(nh[k as int].1@)[w] == x;
                        if w < old_vals.len() {
                            assert(node_views(old_vals)[w] == x);
                        }
                    }
                }
                assert forall|i: int, j: int| 0 <= i < j < nh.len() implies nh[i].0.node_view() != nh[j].0.node_view() by {
                    assert(nh[i].0.node_view() == old_h[i].0.node_view());
                    assert(nh[j].0.node_view() == old_h[j].0.node_view());
                }
                assert forall|q: int| 0 <= q < nh.len() implies distinct(node_views(#[trigger] nh[q].1@)) by {
                    if q != k { assert(nh[q] == old_h[q]); }
                }
                assert forall|x: K::V| has_key(nh, x) <==> (has_key(old_h, x) || x == av) by {
                    if has_key(old_h, x) {
                        let q = choose|q: int| 0 <= q < old_h.len() && #[trigger] old_h[q].0.node_view() == x;
                        assert(nh[q].0.node_view() == x);
                    }
                    if has_key(nh, x) {
                        let q = choose|q: int| 0 <= q < nh.len() && #[trigger] nh[q].0.node_view() == x;
                        assert(old_h[q].0.node_view() == x);
                    }
                }
                assert forall|x: K::V, y: T::V| in_hier(nh, x, y) <==> (in_hier(old_h, x, y) || (x == av && y == bv)) by {
                    if in_hier(old_h, x, y) {
                        let q = choose|q: int| 0 <= q < old_h.len() && old_h[q].0.node_view() == x && #[trigger] node_views(old_h[q].1@).contains(y);
                        if q != k { assert(nh[q] == old_h[q]); }
                        assert(node_views(nh[q].1@).contains(y));
                    }
                    if x == av && y == bv {
                        assert(node_views(nh[k as int].1@).contains(y));
                    }
                    if in_hier(nh, x, y) {
                        let q = choose|q: int| 0 <= q < nh.len() && nh[q].0.node_view() == x && #[trigger] node_views(nh[q].1@).contains(y);
                        if q != k {
                            assert(nh[q] == old_h[q]);
                        } else {
                            if !(x == av && y == bv) {
                                assert(node_views(old_h[q].1@).contains(y));
                            }
                        }
                    }
                }
            }
        },
        None => {
            let mut vals: Vec<T> = Vec::new();
            vals.push(b);
            h.push((a, vals));
            proof {
                let nh = h@;
                let k = old_h.len() as int;
                assert(node_views(nh[k].1@) =~= seq![bv]);
                assert forall|i: int, j: int| 0 <= i < j < nh.len() implies nh[i].0.node_view() != nh[j].0.node_view() by {
                    assert(nh[i] == old_h[i]);
                    if j < k { assert(nh[j] == old_h[j]); }
                }
                assert forall|q: int| 0 <= q < nh.len() implies distinct(node_views(#[trigger] nh[q].1@)) by {
                    if q != k { assert(nh[q] == old_h[q]); }
                }
                assert forall|x: K::V| has_key(nh, x) <==> (has_key(old_h, x) || x == av) by {
                    if has_key(old_h, x) {
                        let q = choose|q: int| 0 <= q < old_h.len() && #[trigger] old_h[q].0.node_view() == x;
                        assert(nh[q].0.node_view() == x);
                    }
                    if x == av {
                        assert(nh[k].0.node_view() == x);
                    }
                    if has_key(nh, x) {
                        let q = choose|q: int| 0 <= q < nh.len() && #[trigger] nh[q].0.node_view() == x;
                        if q < k { assert(old_h[q].0.node_view() == x); }
                    }
                }
                assert forall|x: K::V, y: T::V| in_hier(nh, x, y) <==> (in_hier(old_h, x, y) || (x == av && y == bv)) by {
                    if in_hier(old_h, x, y) {
                        let q = choose|q: int| 0 <= q < old_h.len() && old_h[q].0.node_view() == x && #[trigger] node_views(old_h[q].1@).contains(y);
                        assert(nh[q] == old_h[q]);
                    }
                    if x == av && y == bv {
                        assert(node_views(nh[k].1@)[0] == bv);
                        assert(node_views(nh[k].1@).contains(y));
                    }
                    if in_hier(nh, x, y) {
                        let q = choose|q: int| 0 <= q < nh.len() && nh[q].0.node_view() == x && #[trigger] node_views(nh[q].1@).contains(y);
                        if q < k {
                            assert(nh[q] == old_h[q]);
                        } else {
                            let w = choose|w: int| 0 <= w < 1 && node_views(nh[k].1@)[w] == y;
                        }
                    }
                }
            }
        },
    }
}

/// Give `a` an entry with nothing listed above it, replacing any entry it
/// had.
pub fn hier_reset<K: GraphNode, T: GraphNode>(h: &mut Vec<(K, Vec<T>)>, a: K)
    requires
        hier_wf(old(h)@),
    ensures
        hier_wf(final(h)@),
        forall|x: K::V| has_key(final(h)@, x) <==> (has_key(old(h)@, x) || x == a.node_view()),
        forall|x: K::V, y: T::V| in_hier(final(h)@, x, y) <==> (in_hier(old(h)@, x, y) && x != a.node_view()),
{
    let ghost av = a.node_view();
    let ghost old_h = h@;
    let pos = hier_find(h, &a);
    let empty: Vec<T> = Vec::new();
    proof {
        assert(node_views(empty@) =~= Seq::<T::V>::empty());
    }
    match pos {
        Some(k) => {
            h.set(k, (a, empty));
        },
        None => {
            h.push((a, empty));
        },
    }
    proof {
        let nh = h@;
        let k: int = match pos { Some(k) => k as int, None => old_h.len() as int };
        assert(nh[k].0.node_view() == av);
        assert(node_views(nh[k].1@).len() == 0);
        assert forall|q: int| 0 <= q < nh.len() && q != k implies nh[q] == old_h[q] by {}
        assert forall|i: int, j: int| 0 <= i < j < nh.len() implies nh[i].0.node_view() != nh[j].0.node_view() by {
            if i != k && j != k {
                assert(nh[i] == old_h[i] && nh[j] == old_h[j]);
            } else if i == k {
                assert(nh[j] == old_h[j]);
                if pos is Some {
                    assert(old_h[k].0.node_view() == av);
                }
            } else {
                assert(nh[i] == old_h[i]);
                if pos is Some {
                    assert(old_h[k].0.node_view() == av);
                }
            }
        }
        assert forall|q: int| 0 <= q < nh.len() implies distinct(node_views(#[trigger] nh[q].1@)) by {
            if q != k { assert(nh[q] == old_h[q]); }
        }
        assert forall|x: K::V| has_key(nh, x) <==> (has_key(old_h, x) || x == av) by {
            if has_key(old_h, x) {
                let q = choose|q: int| 0 <= q < old_h.len() && #[trigger] old_h[q].0.node_view() == x;
                if q != k { assert(nh[q] == old_h[q]); } else { assert(nh[k].0.node_view() == av); }
                assert(nh[q].0.node_view() == x);
            }
            if x == av {
                assert(nh[k].0.node_view() == x);
            }
            if has_key(nh, x) {
                let q = choose|q: int| 0 <= q < nh.len() && #[trigger] nh[q].0.node_view() == x;
                if q != k { assert(old_h[q].0.node_view() == x); }
            }
        }
        assert forall|x: K::V, y: T::V| in_hier(nh, x, y) <==> (in_hier(old_h, x, y) && x != av) by {
            if in_hier(old_h, x, y) && x != av {
                let q = choose|q: int| 0 <= q < old_h.len() && old_h[q].0.node_view() == x && #[trigger] node_views(old_h[q].1@).contains(y);
                if q == k {
                    assert(old_h[k].0.node_view() == av);
                }
                assert(nh[q] == old_h[q]);
                assert(node_views(nh[q].1@).contains(y));
            }
            if in_hier(nh, x, y) {
                let q = choose|q: int| 0 <= q < nh.len() && nh[q].0.node_view() == x && #[trigger] node_views(nh[q].1@).contains(y);
                if q == k {
                    assert(!node_views(nh[k].1@).contains(y));
                } else {
                    assert(nh[q] == old_h[q]);
                    assert(nh[q].0.node_view() != nh[k].0.node_view()) by {
                        if q < k {} else {}
                    }
                }
            }
        }
    }
}

/// Give `a` an entry with nothing listed above it, unless it has one.
pub fn hier_touch<K: GraphNode, T: GraphNode>(h: &mut Vec<(K, Vec<T>)>, a: K)
    requires
        hier_wf(old(h)@),
    ensures
        hier_wf(final(h)@),
        forall|x: K::V| has_key(final(h)@, x) <==> (has_key(old(h)@, x) || x == a.node_view()),
        forall|x: K::V, y: T::V| in_hier(final(h)@, x, y) == in_hier(old(h)@, x, y),
{
    if hier_find(h, &a).is_none() {
        hier_reset(h, a);
    }
}

/// A copy of a hierarchy with the same keys and entries in the same order.
pub fn hier_copy<K: GraphNode, T: GraphNode>(h: &Vec<(K, Vec<T>)>) -> (r: Vec<(K, Vec<T>)>)
    ensures
        r@.len() == h@.len(),
        forall|k: int| 0 <= k < h@.len() ==> (#[trigger] r@[k]).0.node_view() == h@[k].0.node_view()
            && node_views(r@[k].1@) == node_views(h@[k].1@),
        hier_wf(h@) ==> hier_wf(r@),
        forall|x: K::V| has_key(r@, x) == has_key(h@, x),
        forall|x: K::V, y: T::V| in_hier(r@, x, y) == in_hier(h@, x, y),
{
    let mut out: Vec<(K, Vec<T>)> = Vec::new();
    let mut i: usize = 0;
    while i < h.len()
        invariant
            i <= h@.len(),
            out@.len() == i,
            forall|k: int| 0 <= k < i ==> (#[trigger] out@[k]).0.node_view() == h@[k].0.node_view()
                && node_views(out@[k].1@) == node_views(h@[k].1@),
        decreases h.len() - i,
    {
        let key = h[i].0.copy_node();
        let vals = crate::nodeset::copy_nodes(&h[i].1);
        out.push((key, vals));
        i += 1;
    }
    proof {
        assert forall|x: K::V| has_key(out@, x) == has_key(h@, x) by {
            if has_key(out@, x) {
                let q = choose|q: int| 0 <= q < out@.len() && #[trigger] out@[q].0.node_view() == x;
                assert(h@[q].0.node_view() == x);
            }
            if has_key(h@, x) {
                let q = choose|q: int| 0 <= q < h@.len() && #[trigger] h@[q].0.node_view() == x;
                assert(out@[q].0.node_view() == x);
            }
        }
        assert forall|x: K::V, y: T::V| in_hier(out@, x, y) == in_hier(h@, x, y) by {
            if in_hier(out@, x, y) {
                let q = choose|q: int| 0 <= q < out@.len() && out@[q].0.node_view() == x && #[trigger] node_views(out@[q].1@).contains(y);
                assert(node_views(h@[q].1@).contains(y));
            }
            if in_hier(h@, x, y) {
                let q = choose|q: int| 0 <= q < h@.len() && h@[q].0.node_view() == x && #[trigger] node_views(h@[q].1@).contains(y);
                assert(node_views(out@[q].1@).contains(y));
            }
        }
        if hier_wf(h@) {
            assert forall|a: int, b: int| 0 <= a < b < out@.len() implies out@[a].0.node_view() != out@[b].0.node_view() by {
                assert(out@[a].0.node_view() == h@[a].0.node_view());
                assert(out@[b].0.node_view() == h@[b].0.node_view());
            }
            assert forall|k: int| 0 <= k < out@.len() implies distinct(node_views(#[trigger] out@[k].1@)) by {
                assert(node_views(out@[k].1@) == node_views(h@[k].1@));
            }
        }
    }
    out
}

/// Whether `b` is listed above `a`.
pub fn hier_has<K: GraphNode, T: GraphNode>(h: &Vec<(K, Vec<T>)>, a: &K, b: &T) -> (r: bool)
    requires
        hier_wf(h@),
    ensures
        r == in_hier(h@, a.node_view(), b.node_view()),
{
    match hier_get(h, a) {
        Some(vals) => contains_node(vals, b),
        None => false,
    }
}

/// All (key, value) pairs of a hierarchy as one list.
pub fn hier_flatten<K: GraphNode, T: GraphNode>(h: &Vec<(K, Vec<T>)>) -> (r: Vec<(K, T)>)
    ensures
        edge_views(r@) == hier_edges(h@),
{
    let mut r: Vec<(K, T)> = Vec::new();
    let mut i: usize = 0;
    while i < h.len()
        invariant
            i <= h@.len(),
            edge_views(r@) == hier_edges(h@.take(i as int)),
        decreases h.len() - i,
    {
        let ghost before = r@;
        let mut j: usize = 0;
        while j < h[i].1.len()
            invariant
                i < h@.len(),
                j <= h@[i as int].1@.len(),
                r@.len() == before.len() + j,
                forall|q: int| 0 <= q < before.len() ==> r@[q] == before[q],
                forall|q: int| 0 <= q < j ==> (#[trigger] r@[before.len() + q]).0.node_view() == h@[i as int].0.node_view() && r@[before.len() + q].1.node_view() == h@[i as int].1@[q].node_view(),
            decreases h@[i as int].1@.len() - j,
        {
            let x = h[i].0.copy_node();
            let y = h[i].1[j].copy_node();
            r.push((x, y));
            j += 1;
        }
        proof {
            assert(h@.take(i + 1).drop_last() =~= h@.take(i as int));
            let last = node_views(h@[i as int].1@).map_values(|b: T::V| (h@[i as int].0.node_view(), b));
            assert(edge_views(r@).len() == (edge_views(before) + last).len());
            assert forall|q: int| 0 <= q < edge_views(r@).len() implies edge_views(r@)[q] == (edge_views(before) + last)[q] by {
                if q < before.len() {
                    assert(r@[q] == before[q]);
                } else {
                    let q2 = q - before.len();
                    assert(r@[before.len() + q2] == r@[q]);
                    assert(last[q2] == (h@[i as int].0.node_view(), node_views(h@[i as int].1@)[q2]));
                }
            }
            assert(edge_views(r@) =~= edge_views(before) + last);
        }
        i += 1;
    }
    proof {
        assert(h@.take(h@.len() as int) =~= h@);
    }
    r
}

/// The transitive closure of a hierarchy: each key keeps its entry, now
/// listing every node reachable from it.
pub fn hier_close<T: GraphNode>(h: &Vec<(T, Vec<T>)>) -> (r: Vec<(T, Vec<T>)>)
    requires
        hier_wf(h@),
    ensures
        hier_wf(r@),
        forall|x: T::V| has_key(r@, x) <==> has_key(h@, x),
        forall|x: T::V, y: T::V| in_hier(r@, x, y) <==> (has_key(h@, x) && reaches(hier_edges(h@), x, y)),
{
    let pairs = hier_flatten(h);
    let mut r: Vec<(T, Vec<T>)> = Vec::new();
    let mut i: usize = 0;
    while i < h.len()
        invariant
            i <= h@.len(),
            hier_wf(h@),
            edge_views(pairs@) == hier_edges(h@),
            r@.len() == i,
            forall|q: int| 0 <= q < i ==> (#[trigger] r@[q]).0.node_view() == h@[q].0.node_view(),
            forall|q: int| 0 <= q < i ==> distinct(node_views(#[trigger] r@[q].1@)),
            forall|q: int, y: T::V| #![trigger node_views(r@[q].1@).contains(y)] #![trigger reaches(hier_edges(h@), h@[q].0.node_view(), y)] 0 <= q < i ==> (node_views(r@[q].1@).contains(y) <==> reaches(hier_edges(h@), h@[q].0.node_view(), y)),
        decreases h.len() - i,
    {
        let key = h[i].0.copy_node();
        let reach = reachable_from(&pairs, &h[i].0);
        r.push((key, reach));
        i += 1;
    }
    proof {
        assert forall|a: int, b: int| 0 <= a < b < r@.len() implies r@[a].0.node_view() != r@[b].0.node_view() by {
            assert(h@[a].0.node_view() != h@[b].0.node_view());
        }
        assert forall|x: T::V| has_key(r@, x) <==> has_key(h@, x) by {
            if has_key(r@, x) {
                let q = choose|q: int| 0 <= q < r@.len() && #[trigger] r@[q].0.node_view() == x;
                assert(h@[q].0.node_view() == x);
            }
            if has_key(h@, x) {
                let q = choose|q: int| 0 <= q < h@.len() && #[trigger] h@[q].0.node_view() == x;
                assert(r@[q].0.node_view() == x);
            }
        }
        assert forall|x: T::V, y: T::V| in_hier(r@, x, y) <==> (has_key(h@, x) && reaches(hier_edges(h@), x, y)) by {
            if in_hier(r@, x, y) {
                let q = choose|q: int| 0 <= q < r@.len() && r@[q].0.node_view() == x && #[trigger] node_views(r@[q].1@).contains(y);
                assert(h@[q].0.node_view() == x);
            }
            if has_key(h@, x) && reaches(hier_edges(h@), x, y) {
                let q = choose|q: int| 0 <= q < h@.len() && #[trigger] h@[q].0.node_view() == x;
                assert(node_views(r@[q].1@).contains(y));
            }
        }
    }
    r
}

/// The closure of a hierarchy is transitive.
pub proof fn lemma_closure_transitive<V>(edges: Seq<(V, V)>, a: V, b: V, c: V)
    requires
        reaches(edges, a, b),
        reaches(edges, b, c),
    ensures
        reaches(edges, a, c),
{
    crate::closure::lemma_reaches_transitive(edges, a, b, c);
}

} // verus!
