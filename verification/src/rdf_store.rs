//! A store of RDF triples in insertion order, as the reasoners read them.

use vstd::prelude::*;
use crate::model::{Triple, TripleView, triples_view};
use crate::store::{PatternView, part_matches, pattern_matches, select, opt_view};

verus! {

/// The triples that the reasoners load their knowledge from.
#[derive(Debug)]
pub struct RdfStore {
    triples: Vec<Triple>,
}

impl RdfStore {
    /// The triples of the store, in insertion order.
    pub closed spec fn view_triples(&self) -> Seq<TripleView> {
        triples_view(self.triples@)
    }

    /// An empty store.
    pub fn new() -> (r: Self)
        ensures
            r.view_triples() == Seq::<TripleView>::empty(),
    {
        let r = RdfStore { triples: Vec::new() };
        assert(r.view_triples() =~= Seq::<TripleView>::empty());
        r
    }

    /// Append a triple.
    pub fn insert(&mut self, triple: Triple)
        ensures
            final(self).view_triples() == old(self).view_triples().push(triple@),
    {
        self.triples.push(triple);
        assert(self.view_triples() =~= old(self).view_triples().push(triple@));
    }

    /// Remove every triple.
    pub fn clear_all(&mut self)
        ensures
            final(self).view_triples() == Seq::<TripleView>::empty(),
    {
        self.triples = Vec::new();
        assert(self.view_triples() =~= Seq::<TripleView>::empty());
    }

    /// All triples, in insertion order.
    pub fn all_triples(&self) -> (r: &Vec<Triple>)
        ensures
            triples_view(r@) == self.view_triples(),
    {
        &self.triples
    }

    /// Number of triples.
    pub fn len(&self) -> (r: usize)
        ensures
            r == self.view_triples().len(),
    {
        self.triples.len()
    }

    /// The triples matching a pattern (`None` parts match anything), in
    /// insertion order.
    pub fn find_triples(&self, subject: Option<&str>, predicate: Option<&str>, object: Option<&str>) -> (r: Vec<&Triple>)
        ensures
            r@.map_values(|t: &Triple| t@) == select(
                self.view_triples(),
                PatternView { subject: opt_view(subject), predicate: opt_view(predicate), object: opt_view(object) },
            ),
    {
        let ghost ts = self.view_triples();
        let ghost pat = PatternView { subject: opt_view(subject), predicate: opt_view(predicate), object: opt_view(object) };
        let s = owned(subject);
        let p = owned(predicate);
        let o = owned(object);
        let mut out: Vec<&Triple> = Vec::new();
        let mut i: usize = 0;
        proof {
            assert(ts.take(0) =~= Seq::<TripleView>::empty());
            assert(out@.map_values(|t: &Triple| t@) =~= Seq::<TripleView>::empty());
        }
        while i < self.triples.len()
            invariant
                i <= self.triples@.len(),
                ts == triples_view(self.triples@),
                opt_string_view(s) == pat.subject,
                opt_string_view(p) == pat.predicate,
                opt_string_view(o) == pat.object,
                out@.map_values(|t: &Triple| t@) == select(ts.take(i as int), pat),
            decreases self.triples.len() - i,
        {
            let ghost before = out@.map_values(|t: &Triple| t@);
            proof {
                assert(ts.take(i + 1).drop_last() =~= ts.take(i as int));
                assert(ts.take(i + 1).last() == self.triples@[i as int]@);
            }
            let t = &self.triples[i];
            if part_ok(&s, &t.subject) && part_ok(&p, &t.predicate) && part_ok(&o, &t.object) {
                out.push(t);
                proof {
                    assert(out@.map_values(|t: &Triple| t@) =~= before.push(t@));
                }
            }
            i += 1;
        }
        proof {
            assert(ts.take(ts.len() as int) =~= ts);
        }
        out
    }

}

/// The view of an optional owned string.
pub open spec fn opt_string_view(o: Option<String>) -> Option<Seq<char>> {
    match o {
        Some(s) => Some(s@),
        None => None,
    }
}

/// An owned copy of an optional string.
fn owned(o: Option<&str>) -> (r: Option<String>)
    ensures
        opt_string_view(r) == opt_view(o),
{
    match o {
        Some(s) => Some(s.to_string()),
        None => None,
    }
}

/// Whether an optional pattern part accepts a value.
fn part_ok(p: &Option<String>, v: &String) -> (r: bool)
    ensures
        r == part_matches(opt_string_view(*p), v@),
{
    match p {
        Some(x) => *x == *v,
        None => true,
    }
}

} // verus!
