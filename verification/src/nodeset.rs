//! Lists used as sets: each value at most once, new values appended in the
//! order they arrive.

use vstd::prelude::*;
use crate::closure::{GraphNode, node_views, distinct, contains_node};

verus! {

/// `s` with `x` appended, unless `x` occurs in `s` already.
pub open spec fn seq_insert<V>(s: Seq<V>, x: V) -> Seq<V> {
    if s.contains(x) {
        s
    } else {
        s.push(x)
    }
}

/// `s` with each value of `xs` inserted in turn.
pub open spec fn seq_extend<V>(s: Seq<V>, xs: Seq<V>) -> Seq<V>
    decreases xs.len(),
{
    if xs.len() == 0 {
        s
    } else {
        seq_insert(seq_extend(s, xs.drop_last()), xs.last())
    }
}

/// Inserting keeps a list duplicate-free and adds exactly the new value.
pub proof fn lemma_seq_insert<V>(s: Seq<V>, x: V)
    ensures
        distinct(s) ==> distinct(seq_insert(s, x)),
        forall|y: V| seq_insert(s, x).contains(y) <==> (s.contains(y) || y == x),
        seq_insert(s, x).len() >= s.len(),
        forall|i: int| 0 <= i < s.len() ==> seq_insert(s, x)[i] == s[i],
{
    let n = seq_insert(s, x);
    if !s.contains(x) {
        assert(n[s.len() as int] == x);
        assert forall|y: V| n.contains(y) implies (s.contains(y) || y == x) by {
            let i = choose|i: int| 0 <= i < n.len() && n[i] == y;
            if i < s.len() {
                assert(s[i] == y);
            }
        }
        assert forall|y: V| s.contains(y) implies n.contains(y) by {
            let i = choose|i: int| 0 <= i < s.len() && s[i] == y;
            assert(n[i] == y);
        }
    }
}

/// Extending keeps a list duplicate-free and adds exactly the new values.
pub proof fn lemma_seq_extend<V>(s: Seq<V>, xs: Seq<V>)
    ensures
        distinct(s) ==> distinct(seq_extend(s, xs)),
        forall|y: V| seq_extend(s, xs).contains(y) <==> (s.contains(y) || xs.contains(y)),
    decreases xs.len(),
{
    if xs.len() > 0 {
        let p = xs.drop_last();
        lemma_seq_extend(s, p);
        lemma_seq_insert(seq_extend(s, p), xs.last());
        assert forall|y: V| xs.contains(y) <==> (p.contains(y) || y == xs.last()) by {
            if xs.contains(y) {
                let i = choose|i: int| 0 <= i < xs.len() && xs[i] == y;
                if i < p.len() {
                    assert(p[i] == y);
                }
            }
            if p.contains(y) {
                let i = choose|i: int| 0 <= i < p.len() && p[i] == y;
                assert(xs[i] == y);
            }
            if y == xs.last() {
                assert(xs[xs.len() - 1] == y);
            }
        }
    }
}

/// Add `x` at the end unless an equal node is there; true when it was added.
pub fn insert_node<T: GraphNode>(v: &mut Vec<T>, x: T) -> (r: bool)
    ensures
        node_views(final(v)@) == seq_insert(node_views(old(v)@), x.node_view()),
        r == !node_views(old(v)@).contains(x.node_view()),
{
    if contains_node(v, &x) {
        false
    } else {
        let ghost xv = x.node_view();
        v.push(x);
        proof {
            assert(node_views(v@) =~= node_views(old(v)@).push(xv));
        }
        true
    }
}

/// Insert a copy of each node of `xs` in turn.
pub fn extend_nodes<T: GraphNode>(v: &mut Vec<T>, xs: &Vec<T>)
    ensures
        node_views(final(v)@) == seq_extend(node_views(old(v)@), node_views(xs@)),
{
    let mut i: usize = 0;
    while i < xs.len()
        invariant
            i <= xs@.len(),
            node_views(v@) == seq_extend(node_views(old(v)@), node_views(xs@.take(i as int))),
        decreases xs.len() - i,
    {
        let x = xs[i].copy_node();
        proof {
            let t1 = node_views(xs@.take(i + 1));
            assert(t1.drop_last() =~= node_views(xs@.take(i as int)));
            assert(t1.last() == xs@[i as int].node_view());
        }
        insert_node(v, x);
        i += 1;
    }
    proof {
        assert(xs@.take(xs@.len() as int) =~= xs@);
    }
}

/// A copy of a list of nodes.
pub fn copy_nodes<T: GraphNode>(v: &Vec<T>) -> (r: Vec<T>)
    ensures
        node_views(r@) == node_views(v@),
{
    let mut out: Vec<T> = Vec::new();
    let mut i: usize = 0;
    while i < v.len()
        invariant
            i <= v@.len(),
            out@.len() == i,
            forall|k: int| 0 <= k < i ==> (#[trigger] out@[k]).node_view() == v@[k].node_view(),
        decreases v.len() - i,
    {
        out.push(v[i].copy_node());
        i += 1;
    }
    proof {
        assert(node_views(out@) =~= node_views(v@));
    }
    out
}

} // verus!
