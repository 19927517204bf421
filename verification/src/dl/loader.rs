//! Loading an OWL DL ontology from RDF triples: the OWL Lite part first, then
//! the class constructors, restrictions and inverse properties that the
//! triples describe.

use vstd::prelude::*;
use crate::closure::{GraphNode, node_views, contains_node};
use crate::nodeset::{seq_insert, insert_node};
use crate::model::{Triple, TripleView, triples_view};
use crate::rdf_store::RdfStore;
use crate::text::join;
use crate::lite::model::{OwlIri, Individual};
use crate::lite::loader::{DefaultOntologyLoader, load_spec};
use crate::lite::reasoner::OwlLiteReasoner;
use super::model::{OwlDlOntology, DlOntologyV, ClassExpression, ClassExpressionV, PropertyExpression, PropertyExpressionV,
    ce_view, pe_view, collect_ce, collect_pe, keeps_entities, law_collect_ce_records, lemma_keeps_trans, lemma_keeps_refl,
    lemma_collect_pe_keeps};
use super::reasoner::{OwlDlReasoner, from_lite_spec};
use super::OwlDlError;

verus! {

/// The object of the first triple with subject `s` and predicate `p`.
pub open spec fn first_object(ts: Seq<TripleView>, s: Seq<char>, p: Seq<char>) -> Option<Seq<char>>
    decreases ts.len(),
{
    if ts.len() == 0 {
        None
    } else {
        match first_object(ts.drop_last(), s, p) {
            Some(o) => Some(o),
            None => if ts.last().subject == s && ts.last().predicate == p { Some(ts.last().object) } else { None },
        }
    }
}

/// The object of the last triple with subject `s` and predicate `p`.
pub open spec fn last_object(ts: Seq<TripleView>, s: Seq<char>, p: Seq<char>) -> Option<Seq<char>>
    decreases ts.len(),
{
    if ts.len() == 0 {
        None
    } else if ts.last().subject == s && ts.last().predicate == p {
        Some(ts.last().object)
    } else {
        last_object(ts.drop_last(), s, p)
    }
}

/// The subjects of the triples whose predicate is one of `preds`, each once,
/// in the order they first occur.
pub open spec fn subjects_in(ts: Seq<TripleView>, preds: Seq<Seq<char>>) -> Seq<Seq<char>>
    decreases ts.len(),
{
    if ts.len() == 0 {
        Seq::empty()
    } else {
        let r = subjects_in(ts.drop_last(), preds);
        if preds.contains(ts.last().predicate) { seq_insert(r, ts.last().subject) } else { r }
    }
}

pub open spec fn rdf_first_iri() -> Seq<char> {
    "http://www.w3.org/1999/02/22-rdf-syntax-ns#first"@
}

pub open spec fn rdf_rest_iri() -> Seq<char> {
    "http://www.w3.org/1999/02/22-rdf-syntax-ns#rest"@
}

pub open spec fn rdf_nil_iri() -> Seq<char> {
    "http://www.w3.org/1999/02/22-rdf-syntax-ns#nil"@
}

/// The members of the RDF list that starts at `cur`: each node needs an
/// rdf:first and an rdf:rest (the first of each counts), and rdf:nil ends
/// the list. `fuel` more nodes may follow `cur`; a list that would need more
/// runs around a cycle, and has no members.
pub open spec fn rdf_list(ts: Seq<TripleView>, cur: Seq<char>, fuel: nat) -> Option<Seq<Seq<char>>>
    decreases fuel,
{
    match first_object(ts, cur, rdf_first_iri()) {
        None => None,
        Some(x) => match first_object(ts, cur, rdf_rest_iri()) {
            None => None,
            Some(r) => if r == rdf_nil_iri() {
                Some(seq![x])
            } else if fuel == 0 {
                None
            } else {
                match rdf_list(ts, r, (fuel - 1) as nat) {
                    Some(l) => Some(seq![x] + l),
                    None => None,
                }
            },
        },
    }
}

/// The members of the list at `head` in the triples `ts`.
pub open spec fn list_members(ts: Seq<TripleView>, head: Seq<char>) -> Option<Seq<Seq<char>>> {
    rdf_list(ts, head, ts.len())
}

/// The class expression an IRI names: owl:Thing, owl:Nothing, or a named
/// class.
pub open spec fn iri_ce(iri: Seq<char>) -> ClassExpressionV {
    if iri == "http://www.w3.org/2002/07/owl#Thing"@ {
        ClassExpressionV::Thing
    } else if iri == "http://www.w3.org/2002/07/owl#Nothing"@ {
        ClassExpressionV::Nothing
    } else {
        ClassExpressionV::Named(iri)
    }
}

/// Every character is a decimal digit.
pub open spec fn all_digits(d: Seq<char>) -> bool {
    forall|i: int| 0 <= i < d.len() ==> '0' <= #[trigger] d[i] && d[i] <= '9'
}

/// The number that a string of decimal digits writes.
pub open spec fn digits_value(d: Seq<char>) -> int
    decreases d.len(),
{
    if d.len() == 0 {
        0
    } else {
        digits_value(d.drop_last()) * 10 + (d.last() as int - '0' as int)
    }
}

/// What `str::parse::<u32>` gives: an optional `+`, then one or more
/// decimal digits whose value fits in a `u32`.
pub open spec fn parse_u32_spec(s: Seq<char>) -> Option<u32> {
    let d = if s.len() > 0 && s[0] == '+' { s.drop_first() } else { s };
    if d.len() > 0 && all_digits(d) && digits_value(d) <= u32::MAX {
        Some(digits_value(d) as u32)
    } else {
        None
    }
}

pub open spec fn owl_intersection_of() -> Seq<char> {
    "http://www.w3.org/2002/07/owl#intersectionOf"@
}

pub open spec fn owl_union_of() -> Seq<char> {
    "http://www.w3.org/2002/07/owl#unionOf"@
}

pub open spec fn owl_complement_of() -> Seq<char> {
    "http://www.w3.org/2002/07/owl#complementOf"@
}

pub open spec fn owl_one_of() -> Seq<char> {
    "http://www.w3.org/2002/07/owl#oneOf"@
}

pub open spec fn owl_some_values_from() -> Seq<char> {
    "http://www.w3.org/2002/07/owl#someValuesFrom"@
}

pub open spec fn owl_all_values_from() -> Seq<char> {
    "http://www.w3.org/2002/07/owl#allValuesFrom"@
}

pub open spec fn owl_has_value() -> Seq<char> {
    "http://www.w3.org/2002/07/owl#hasValue"@
}

pub open spec fn owl_min_cardinality() -> Seq<char> {
    "http://www.w3.org/2002/07/owl#minCardinality"@
}

pub open spec fn owl_max_cardinality() -> Seq<char> {
    "http://www.w3.org/2002/07/owl#maxCardinality"@
}

pub open spec fn owl_exact_cardinality() -> Seq<char> {
    "http://www.w3.org/2002/07/owl#exactCardinality"@
}

pub open spec fn owl_inverse_of() -> Seq<char> {
    "http://www.w3.org/2002/07/owl#inverseOf"@
}

pub open spec fn owl_on_property() -> Seq<char> {
    "http://www.w3.org/2002/07/owl#onProperty"@
}

/// The predicates that describe a restriction.
pub open spec fn restriction_preds() -> Seq<Seq<char>> {
    seq![owl_some_values_from(), owl_all_values_from(), owl_has_value(), owl_min_cardinality(),
        owl_max_cardinality(), owl_exact_cardinality()]
}

/// The class expressions of the lists of intersections (or unions) that
/// `keys` name, added in order.
pub open spec fn add_list_classes(o: DlOntologyV, ts: Seq<TripleView>, keys: Seq<Seq<char>>, pred: Seq<char>, union: bool) -> DlOntologyV
    decreases keys.len(),
{
    if keys.len() == 0 {
        o
    } else {
        let o1 = add_list_classes(o, ts, keys.drop_last(), pred, union);
        match last_object(ts, keys.last(), pred) {
            Some(head) => match list_members(ts, head) {
                Some(items) => {
                    let parts = items.map_values(|i: Seq<char>| iri_ce(i));
                    collect_ce(o1, if union { ClassExpressionV::UnionOf(parts) } else { ClassExpressionV::IntersectionOf(parts) })
                },
                None => o1,
            },
            None => o1,
        }
    }
}

/// The complements that `keys` name, added in order.
pub open spec fn add_complements(o: DlOntologyV, ts: Seq<TripleView>, keys: Seq<Seq<char>>) -> DlOntologyV
    decreases keys.len(),
{
    if keys.len() == 0 {
        o
    } else {
        let o1 = add_complements(o, ts, keys.drop_last());
        match last_object(ts, keys.last(), owl_complement_of()) {
            Some(c) => collect_ce(o1, ClassExpressionV::ComplementOf(Box::new(iri_ce(c)))),
            None => o1,
        }
    }
}

/// The enumerations that `keys` name, added in order.
pub open spec fn add_enumerations(o: DlOntologyV, ts: Seq<TripleView>, keys: Seq<Seq<char>>) -> DlOntologyV
    decreases keys.len(),
{
    if keys.len() == 0 {
        o
    } else {
        let o1 = add_enumerations(o, ts, keys.drop_last());
        match last_object(ts, keys.last(), owl_one_of()) {
            Some(head) => match list_members(ts, head) {
                Some(items) => collect_ce(o1, ClassExpressionV::OneOf(items)),
                None => o1,
            },
            None => o1,
        }
    }
}

/// `o` with a class expression added when `v` holds a value.
pub open spec fn add_if(o: DlOntologyV, v: Option<ClassExpressionV>) -> DlOntologyV {
    match v {
        Some(e) => collect_ce(o, e),
        None => o,
    }
}

/// The cardinality restriction that restriction `k` states with predicate
/// `pred` (`kind` 0 for minimum, 1 for maximum, 2 for exact), when its value
/// parses.
pub open spec fn cardinality_of(ts: Seq<TripleView>, k: Seq<char>, pred: Seq<char>, kind: int, p: PropertyExpressionV) -> Option<ClassExpressionV> {
    match last_object(ts, k, pred) {
        Some(v) => match parse_u32_spec(v) {
            Some(n) => Some(if kind == 0 {
                ClassExpressionV::MinCardinality(n, p, None)
            } else if kind == 1 {
                ClassExpressionV::MaxCardinality(n, p, None)
            } else {
                ClassExpressionV::ExactCardinality(n, p, None)
            }),
            None => None,
        },
        None => None,
    }
}

/// The expressions that restriction `k` on property `p` adds, in order:
/// someValuesFrom, allValuesFrom, hasValue, then the cardinalities.
pub open spec fn add_restriction(o: DlOntologyV, ts: Seq<TripleView>, k: Seq<char>, p: PropertyExpressionV) -> DlOntologyV {
    let some = match last_object(ts, k, owl_some_values_from()) {
        Some(c) => Some(ClassExpressionV::SomeValuesFrom(p, Box::new(iri_ce(c)))),
        None => None,
    };
    let all = match last_object(ts, k, owl_all_values_from()) {
        Some(c) => Some(ClassExpressionV::AllValuesFrom(p, Box::new(iri_ce(c)))),
        None => None,
    };
    let has = match last_object(ts, k, owl_has_value()) {
        Some(i) => Some(ClassExpressionV::HasValue(p, i)),
        None => None,
    };
    add_if(add_if(add_if(add_if(add_if(add_if(o, some), all), has),
        cardinality_of(ts, k, owl_min_cardinality(), 0, p)), cardinality_of(ts, k, owl_max_cardinality(), 1, p)),
        cardinality_of(ts, k, owl_exact_cardinality(), 2, p))
}

/// The restrictions that `keys` name, added in order; the first one without
/// an owl:onProperty is the error.
pub open spec fn add_restrictions(o: DlOntologyV, ts: Seq<TripleView>, keys: Seq<Seq<char>>) -> Result<DlOntologyV, Seq<char>>
    decreases keys.len(),
{
    if keys.len() == 0 {
        Ok(o)
    } else {
        match add_restrictions(o, ts, keys.drop_last()) {
            Err(k) => Err(k),
            Ok(o1) => match first_object(ts, keys.last(), owl_on_property()) {
                None => Err(keys.last()),
                Some(p) => Ok(add_restriction(o1, ts, keys.last(), PropertyExpressionV::ObjectProperty(p))),
            },
        }
    }
}

/// The inverse property expressions that `keys` name, added in order: the
/// inverse of the property, then the inverse of the one it is inverse of.
pub open spec fn add_inverses(o: DlOntologyV, ts: Seq<TripleView>, keys: Seq<Seq<char>>) -> DlOntologyV
    decreases keys.len(),
{
    if keys.len() == 0 {
        o
    } else {
        let o1 = add_inverses(o, ts, keys.drop_last());
        match last_object(ts, keys.last(), owl_inverse_of()) {
            Some(q) => collect_pe(collect_pe(o1, PropertyExpressionV::InverseOf(Box::new(PropertyExpressionV::ObjectProperty(keys.last())))),
                PropertyExpressionV::InverseOf(Box::new(PropertyExpressionV::ObjectProperty(q)))),
            None => o1,
        }
    }
}

/// What the OWL DL constructs of `ts` add to `o`: intersections, unions,
/// complements, enumerations, restrictions and inverse properties, each
/// kind in the order its subjects first occur; or the restriction that
/// lacks an owl:onProperty.
pub open spec fn dl_constructs_spec(o: DlOntologyV, ts: Seq<TripleView>) -> Result<DlOntologyV, Seq<char>> {
    let o1 = add_list_classes(o, ts, subjects_in(ts, seq![owl_intersection_of()]), owl_intersection_of(), false);
    let o2 = add_list_classes(o1, ts, subjects_in(ts, seq![owl_union_of()]), owl_union_of(), true);
    let o3 = add_complements(o2, ts, subjects_in(ts, seq![owl_complement_of()]));
    let o4 = add_enumerations(o3, ts, subjects_in(ts, seq![owl_one_of()]));
    match add_restrictions(o4, ts, subjects_in(ts, restriction_preds())) {
        Err(k) => Err(k),
        Ok(o5) => Ok(add_inverses(o5, ts, subjects_in(ts, seq![owl_inverse_of()]))),
    }
}

/// The message of a restriction without an owl:onProperty.
pub open spec fn no_property_message(k: Seq<char>) -> Seq<char> {
    "No onProperty found for restriction "@ + k
}

/// The object of the first triple of `ts` with subject `s` and predicate `p`.
fn first_object_of(ts: &Vec<Triple>, s: &String, p: &String) -> (r: Option<String>)
    ensures
        match r {
            Some(o) => first_object(triples_view(ts@), s@, p@) == Some(o@),
            None => first_object(triples_view(ts@), s@, p@) is None,
        },
{
    let ghost tv = triples_view(ts@);
    let mut i: usize = 0;
    proof {
        assert(tv.take(0) =~= Seq::<TripleView>::empty());
    }
    while i < ts.len()
        invariant
            i <= ts@.len(),
            tv == triples_view(ts@),
            first_object(tv.take(i as int), s@, p@) is None,
        decreases ts.len() - i,
    {
        proof {
            assert(tv.take(i + 1).drop_last() =~= tv.take(i as int));
            assert(tv.take(i + 1).last() == ts@[i as int]@);
        }
        if ts[i].subject == *s && ts[i].predicate == *p {
            proof {
                lemma_first_object_prefix(tv, i + 1, s@, p@);
            }
            return Some(ts[i].object.clone());
        }
        i += 1;
    }
    proof {
        assert(tv.take(tv.len() as int) =~= tv);
    }
    None
}

/// A first object found in a prefix is the first object of the whole.
proof fn lemma_first_object_prefix(ts: Seq<TripleView>, n: int, s: Seq<char>, p: Seq<char>)
    requires
        0 <= n <= ts.len(),
        first_object(ts.take(n), s, p) is Some,
    ensures
        first_object(ts, s, p) == first_object(ts.take(n), s, p),
    decreases ts.len() - n,
{
    if n < ts.len() {
        assert(ts.take(n + 1).drop_last() =~= ts.take(n));
        assert(first_object(ts.take(n + 1), s, p) == first_object(ts.take(n), s, p));
        lemma_first_object_prefix(ts, n + 1, s, p);
    } else {
        assert(ts.take(n) =~= ts);
    }
}

/// The object of the last triple of `ts` with subject `s` and predicate `p`.
fn last_object_of(ts: &Vec<Triple>, s: &String, p: &String) -> (r: Option<String>)
    ensures
        match r {
            Some(o) => last_object(triples_view(ts@), s@, p@) == Some(o@),
            None => last_object(triples_view(ts@), s@, p@) is None,
        },
{
    let ghost tv = triples_view(ts@);
    let mut i: usize = ts.len();
    proof {
        assert(tv.take(tv.len() as int) =~= tv);
    }
    while i > 0
        invariant
            i <= ts@.len(),
            tv == triples_view(ts@),
            last_object(tv, s@, p@) == last_object(tv.take(i as int), s@, p@),
        decreases i,
    {
        proof {
            assert(tv.take(i as int).drop_last() =~= tv.take(i - 1));
            assert(tv.take(i as int).last() == ts@[i - 1]@);
        }
        if ts[i - 1].subject == *s && ts[i - 1].predicate == *p {
            return Some(ts[i - 1].object.clone());
        }
        i -= 1;
    }
    proof {
        assert(tv.take(0) =~= Seq::<TripleView>::empty());
    }
    None
}

/// The subjects of the triples whose predicate is one of `preds`, each once,
/// in the order they first occur.
fn subjects_with(ts: &Vec<Triple>, preds: &Vec<String>) -> (r: Vec<String>)
    ensures
        node_views(r@) == subjects_in(triples_view(ts@), node_views(preds@)),
{
    let ghost tv = triples_view(ts@);
    let ghost pv = node_views(preds@);
    let mut out: Vec<String> = Vec::new();
    proof {
        assert(tv.take(0) =~= Seq::<TripleView>::empty());
        assert(node_views(out@) =~= Seq::<Seq<char>>::empty());
    }
    let mut i: usize = 0;
    while i < ts.len()
        invariant
            i <= ts@.len(),
            tv == triples_view(ts@),
            pv == node_views(preds@),
            node_views(out@) == subjects_in(tv.take(i as int), pv),
        decreases ts.len() - i,
    {
        proof {
            assert(tv.take(i + 1).drop_last() =~= tv.take(i as int));
            assert(tv.take(i + 1).last() == ts@[i as int]@);
        }
        if contains_node(preds, &ts[i].predicate) {
            insert_node(&mut out, ts[i].subject.clone());
        }
        i += 1;
    }
    proof {
        assert(tv.take(tv.len() as int) =~= tv);
    }
    out
}

/// `Some(acc + l)` for `Some(l)`.
pub open spec fn prepend(acc: Seq<Seq<char>>, r: Option<Seq<Seq<char>>>) -> Option<Seq<Seq<char>>> {
    match r {
        Some(l) => Some(acc + l),
        None => None,
    }
}

/// The members of the RDF list that starts at `head`.
fn parse_rdf_list(ts: &Vec<Triple>, head: &String) -> (r: Option<Vec<String>>)
    ensures
        match r {
            Some(v) => list_members(triples_view(ts@), head@) == Some(node_views(v@)),
            None => list_members(triples_view(ts@), head@) is None,
        },
{
    let ghost tv = triples_view(ts@);
    let rdf_first = "http://www.w3.org/1999/02/22-rdf-syntax-ns#first".to_string();
    let rdf_rest = "http://www.w3.org/1999/02/22-rdf-syntax-ns#rest".to_string();
    let rdf_nil = "http://www.w3.org/1999/02/22-rdf-syntax-ns#nil".to_string();
    let mut result: Vec<String> = Vec::new();
    let mut current = head.clone();
    let mut fuel: usize = ts.len();
    proof {
        assert(node_views(result@) =~= Seq::<Seq<char>>::empty());
        assert(prepend(Seq::empty(), rdf_list(tv, head@, tv.len())) == rdf_list(tv, head@, tv.len())) by {
            match rdf_list(tv, head@, tv.len()) {
                Some(l) => { assert(Seq::<Seq<char>>::empty() + l =~= l); },
                None => {},
            }
        }
    }
    loop
        invariant
            tv == triples_view(ts@),
            rdf_first@ == rdf_first_iri(),
            rdf_rest@ == rdf_rest_iri(),
            rdf_nil@ == rdf_nil_iri(),
            list_members(tv, head@) == prepend(node_views(result@), rdf_list(tv, current@, fuel as nat)),
        decreases fuel,
    {
        let ghost acc = node_views(result@);
        let x = match first_object_of(ts, &current, &rdf_first) {
            Some(x) => x,
            None => { return None; },
        };
        let ghost xv = x@;
        result.push(x);
        proof {
            assert(node_views(result@) =~= acc.push(xv));
        }
        let r = match first_object_of(ts, &current, &rdf_rest) {
            Some(r) => r,
            None => { return None; },
        };
        if r == rdf_nil {
            proof {
                assert(acc + seq![xv] =~= acc.push(xv));
            }
            return Some(result);
        }
        if fuel == 0 {
            return None;
        }
        proof {
            match rdf_list(tv, r@, (fuel - 1) as nat) {
                Some(l) => {
                    assert(acc + (seq![xv] + l) =~= acc.push(xv) + l);
                },
                None => {},
            }
        }
        fuel -= 1;
        current = r;
    }
}

/// The class expression an IRI names.
fn iri_to_class_expression(iri: &String) -> (r: ClassExpression)
    ensures
        ce_view(r) == iri_ce(iri@),
{
    let thing = "http://www.w3.org/2002/07/owl#Thing".to_string();
    let nothing = "http://www.w3.org/2002/07/owl#Nothing".to_string();
    if *iri == thing {
        ClassExpression::Thing
    } else if *iri == nothing {
        ClassExpression::Nothing
    } else {
        ClassExpression::Named(OwlIri(iri.clone()))
    }
}

/// The value of a string of digits is not negative.
proof fn lemma_digits_value_nonneg(d: Seq<char>)
    requires
        all_digits(d),
    ensures
        digits_value(d) >= 0,
    decreases d.len(),
{
    if d.len() > 0 {
        assert(all_digits(d.drop_last())) by {
            assert forall|i: int| 0 <= i < d.drop_last().len() implies '0' <= #[trigger] d.drop_last()[i] && d.drop_last()[i] <= '9' by {
                assert(d.drop_last()[i] == d[i]);
            }
        }
        lemma_digits_value_nonneg(d.drop_last());
        assert('0' <= d[d.len() - 1]);
    }
}

/// `str::parse::<u32>`: an optional `+`, then decimal digits that fit.
fn parse_u32(s: &String) -> (r: Option<u32>)
    ensures
        r == parse_u32_spec(s@),
{
    let t = s.as_str();
    let n = t.unicode_len();
    let mut start: usize = 0;
    if n > 0 && t.get_char(0) == '+' {
        start = 1;
    }
    let ghost d = if s@.len() > 0 && s@[0] == '+' { s@.drop_first() } else { s@ };
    proof {
        assert(d =~= s@.subrange(start as int, n as int));
    }
    if start >= n {
        return None;
    }
    let cap: u64 = 4294967296;
    let mut acc: u64 = 0;
    let mut i: usize = start;
    proof {
        assert(s@.subrange(start as int, i as int) =~= Seq::<char>::empty());
    }
    while i < n
        invariant
            start <= i <= n,
            n == s@.len(),
            t@ == s@,
            d == s@.subrange(start as int, n as int),
            parse_u32_spec(s@) == (if d.len() > 0 && all_digits(d) && digits_value(d) <= u32::MAX { Some(digits_value(d) as u32) } else { None }),
            cap == 4294967296,
            all_digits(s@.subrange(start as int, i as int)),
            acc <= cap,
            acc == (if digits_value(s@.subrange(start as int, i as int)) < cap { digits_value(s@.subrange(start as int, i as int)) } else { cap as int }),
        decreases n - i,
    {
        let c = t.get_char(i);
        let ghost pre = s@.subrange(start as int, i as int);
        let ghost next = s@.subrange(start as int, i + 1);
        proof {
            assert(next.drop_last() =~= pre);
            assert(next.last() == c);
        }
        if c < '0' || c > '9' {
            proof {
                assert(d[i - start] == c);
                assert(!all_digits(d));
            }
            return None;
        }
        let dig: u64 = (c as u32 - '0' as u32) as u64;
        proof {
            lemma_digits_value_nonneg(pre);
            assert(all_digits(next)) by {
                assert forall|j: int| 0 <= j < next.len() implies '0' <= #[trigger] next[j] && next[j] <= '9' by {
                    if j < pre.len() {
                        assert(next[j] == pre[j]);
                    }
                }
            }
            assert(digits_value(next) == digits_value(pre) * 10 + dig);
        }
        if acc >= cap {
            acc = cap;
        } else {
            let v = acc * 10 + dig;
            if v > cap {
                acc = cap;
            } else {
                acc = v;
            }
        }
        i += 1;
    }
    proof {
        assert(s@.subrange(start as int, n as int) =~= d);
    }
    if acc >= cap {
        None
    } else {
        Some(acc as u32)
    }
}

/// Add the intersections (or unions) whose subjects are `keys`.
fn load_list_classes(ts: &Vec<Triple>, keys: &Vec<String>, pred: &String, union: bool, ontology: &mut OwlDlOntology)
    requires
        old(ontology).wf(),
    ensures
        final(ontology).wf(),
        final(ontology).view_of() == add_list_classes(old(ontology).view_of(), triples_view(ts@), node_views(keys@), pred@, union),
        final(ontology).axioms == old(ontology).axioms,
{
    let ghost tv = triples_view(ts@);
    let ghost kv = node_views(keys@);
    let ghost o0 = ontology.view_of();
    let mut k: usize = 0;
    proof {
        assert(kv.take(0) =~= Seq::<Seq<char>>::empty());
    }
    while k < keys.len()
        invariant
            k <= keys@.len(),
            tv == triples_view(ts@),
            kv == node_views(keys@),
            ontology.wf(),
            ontology.view_of() == add_list_classes(o0, tv, kv.take(k as int), pred@, union),
            ontology.axioms == old(ontology).axioms,
        decreases keys.len() - k,
    {
        proof {
            assert(kv.take(k + 1).drop_last() =~= kv.take(k as int));
            assert(kv.take(k + 1).last() == keys@[k as int]@);
        }
        match last_object_of(ts, &keys[k], pred) {
            Some(head) => {
                match parse_rdf_list(ts, &head) {
                    Some(items) => {
                        let mut parts: Vec<ClassExpression> = Vec::new();
                        let mut j: usize = 0;
                        while j < items.len()
                            invariant
                                j <= items@.len(),
                                parts@.len() == j,
                                forall|q: int| 0 <= q < j ==> ce_view(#[trigger] parts@[q]) == iri_ce(items@[q]@),
                            decreases items.len() - j,
                        {
                            parts.push(iri_to_class_expression(&items[j]));
                            j += 1;
                        }
                        proof {
                            crate::dl::model::lemma_ce_seq_view(parts@);
                            assert(crate::dl::model::ce_seq_view(parts@) =~= node_views(items@).map_values(|i: Seq<char>| iri_ce(i)));
                        }
                        let expr = if union { ClassExpression::UnionOf(parts) } else { ClassExpression::IntersectionOf(parts) };
                        ontology.add_class_expression(&expr);
                    },
                    None => {},
                }
            },
            None => {},
        }
        k += 1;
    }
    proof {
        assert(kv.take(kv.len() as int) =~= kv);
    }
}

/// Add the complements whose subjects are `keys`.
fn load_complements(ts: &Vec<Triple>, keys: &Vec<String>, ontology: &mut OwlDlOntology)
    requires
        old(ontology).wf(),
    ensures
        final(ontology).wf(),
        final(ontology).view_of() == add_complements(old(ontology).view_of(), triples_view(ts@), node_views(keys@)),
        final(ontology).axioms == old(ontology).axioms,
{
    let ghost tv = triples_view(ts@);
    let ghost kv = node_views(keys@);
    let ghost o0 = ontology.view_of();
    let pred = "http://www.w3.org/2002/07/owl#complementOf".to_string();
    let mut k: usize = 0;
    proof {
        assert(kv.take(0) =~= Seq::<Seq<char>>::empty());
    }
    while k < keys.len()
        invariant
            k <= keys@.len(),
            tv == triples_view(ts@),
            kv == node_views(keys@),
            pred@ == owl_complement_of(),
            ontology.wf(),
            ontology.view_of() == add_complements(o0, tv, kv.take(k as int)),
            ontology.axioms == old(ontology).axioms,
        decreases keys.len() - k,
    {
        proof {
            assert(kv.take(k + 1).drop_last() =~= kv.take(k as int));
            assert(kv.take(k + 1).last() == keys@[k as int]@);
        }
        match last_object_of(ts, &keys[k], &pred) {
            Some(c) => {
                let expr = ClassExpression::ComplementOf(Box::new(iri_to_class_expression(&c)));
                ontology.add_class_expression(&expr);
            },
            None => {},
        }
        k += 1;
    }
    proof {
        assert(kv.take(kv.len() as int) =~= kv);
    }
}

/// Add the enumerations whose subjects are `keys`.
fn load_enumerations(ts: &Vec<Triple>, keys: &Vec<String>, ontology: &mut OwlDlOntology)
    requires
        old(ontology).wf(),
    ensures
        final(ontology).wf(),
        final(ontology).view_of() == add_enumerations(old(ontology).view_of(), triples_view(ts@), node_views(keys@)),
        final(ontology).axioms == old(ontology).axioms,
{
    let ghost tv = triples_view(ts@);
    let ghost kv = node_views(keys@);
    let ghost o0 = ontology.view_of();
    let pred = "http://www.w3.org/2002/07/owl#oneOf".to_string();
    let mut k: usize = 0;
    proof {
        assert(kv.take(0) =~= Seq::<Seq<char>>::empty());
    }
    while k < keys.len()
        invariant
            k <= keys@.len(),
            tv == triples_view(ts@),
            kv == node_views(keys@),
            pred@ == owl_one_of(),
            ontology.wf(),
            ontology.view_of() == add_enumerations(o0, tv, kv.take(k as int)),
            ontology.axioms == old(ontology).axioms,
        decreases keys.len() - k,
    {
        proof {
            assert(kv.take(k + 1).drop_last() =~= kv.take(k as int));
            assert(kv.take(k + 1).last() == keys@[k as int]@);
        }
        match last_object_of(ts, &keys[k], &pred) {
            Some(head) => {
                match parse_individual_list(ts, &head) {
                    Some(individuals) => {
                        let expr = ClassExpression::OneOf(individuals);
                        ontology.add_class_expression(&expr);
                    },
                    None => {},
                }
            },
            None => {},
        }
        k += 1;
    }
    proof {
        assert(kv.take(kv.len() as int) =~= kv);
    }
}

/// The members of an RDF list as individuals.
fn parse_individual_list(ts: &Vec<Triple>, head: &String) -> (r: Option<Vec<Individual>>)
    ensures
        match r {
            Some(v) => list_members(triples_view(ts@), head@) == Some(node_views(v@)),
            None => list_members(triples_view(ts@), head@) is None,
        },
{
    match parse_rdf_list(ts, head) {
        Some(iris) => {
            let mut out: Vec<Individual> = Vec::new();
            let mut j: usize = 0;
            while j < iris.len()
                invariant
                    j <= iris@.len(),
                    out@.len() == j,
                    forall|q: int| 0 <= q < j ==> (#[trigger] out@[q]).node_view() == iris@[q]@,
                decreases iris.len() - j,
            {
                out.push(Individual(OwlIri(iris[j].clone())));
                j += 1;
            }
            proof {
                assert(node_views(out@) =~= node_views(iris@));
            }
            Some(out)
        },
        None => None,
    }
}

/// Add a cardinality restriction of one kind when the restriction states
/// one that parses.
fn load_cardinality(ts: &Vec<Triple>, key: &String, pred: &String, kind: u8, property: &PropertyExpression, ontology: &mut OwlDlOntology)
    requires
        old(ontology).wf(),
        kind <= 2,
    ensures
        final(ontology).wf(),
        final(ontology).view_of() == add_if(old(ontology).view_of(), cardinality_of(triples_view(ts@), key@, pred@, kind as int, pe_view(*property))),
        final(ontology).axioms == old(ontology).axioms,
{
    match last_object_of(ts, key, pred) {
        Some(v) => {
            match parse_u32(&v) {
                Some(cardinality) => {
                    let expr = if kind == 0 {
                        ClassExpression::MinCardinality { cardinality, property: property.copy(), class: None }
                    } else if kind == 1 {
                        ClassExpression::MaxCardinality { cardinality, property: property.copy(), class: None }
                    } else {
                        ClassExpression::ExactCardinality { cardinality, property: property.copy(), class: None }
                    };
                    ontology.add_class_expression(&expr);
                },
                None => {},
            }
        },
        None => {},
    }
}

/// The property a restriction is on: the object of its first owl:onProperty
/// triple, or an error naming the restriction.
fn find_restriction_property(ts: &Vec<Triple>, restriction_iri: &String) -> (r: Result<PropertyExpression, OwlDlError>)
    ensures
        match first_object(triples_view(ts@), restriction_iri@, owl_on_property()) {
            Some(o) => r matches Ok(PropertyExpression::ObjectProperty(p)) && p.0@ == o,
            None => r matches Err(OwlDlError::LoaderError(m)) && m@ == no_property_message(restriction_iri@),
        },
{
    let on_property = "http://www.w3.org/2002/07/owl#onProperty".to_string();
    match first_object_of(ts, restriction_iri, &on_property) {
        Some(p) => Ok(PropertyExpression::ObjectProperty(OwlIri(p))),
        None => Err(OwlDlError::LoaderError(join("No onProperty found for restriction ", restriction_iri.as_str()))),
    }
}

/// Add the restrictions whose subjects are `keys`; the first one without an
/// owl:onProperty is an error.
fn load_restrictions(ts: &Vec<Triple>, keys: &Vec<String>, ontology: &mut OwlDlOntology) -> (r: Result<(), OwlDlError>)
    requires
        old(ontology).wf(),
    ensures
        final(ontology).wf(),
        final(ontology).axioms == old(ontology).axioms,
        match add_restrictions(old(ontology).view_of(), triples_view(ts@), node_views(keys@)) {
            Ok(o) => r is Ok && final(ontology).view_of() == o,
            Err(k) => r matches Err(OwlDlError::LoaderError(m)) && m@ == no_property_message(k),
        },
{
    let ghost tv = triples_view(ts@);
    let ghost kv = node_views(keys@);
    let ghost o0 = ontology.view_of();
    let on_property = "http://www.w3.org/2002/07/owl#onProperty".to_string();
    let mut k: usize = 0;
    proof {
        assert(kv.take(0) =~= Seq::<Seq<char>>::empty());
    }
    while k < keys.len()
        invariant
            k <= keys@.len(),
            tv == triples_view(ts@),
            kv == node_views(keys@),
            on_property@ == owl_on_property(),
            ontology.wf(),
            o0 == old(ontology).view_of(),
            add_restrictions(o0, tv, kv.take(k as int)) == Ok::<DlOntologyV, Seq<char>>(ontology.view_of()),
            ontology.axioms == old(ontology).axioms,
        decreases keys.len() - k,
    {
        let ghost kk = keys@[k as int]@;
        proof {
            assert(kv.take(k + 1).drop_last() =~= kv.take(k as int));
            assert(kv.take(k + 1).last() == kk);
        }
        let property = match find_restriction_property(ts, &keys[k]) {
            Ok(p) => p,
            Err(e) => {
                proof {
                    assert(add_restrictions(o0, tv, kv.take(k + 1)) == Err::<DlOntologyV, Seq<char>>(kk));
                    lemma_restrictions_stay_err(o0, tv, kv, k + 1, kk);
                }
                return Err(e);
            },
        };
        load_restriction(ts, &keys[k], &property, ontology);
        k += 1;
    }
    proof {
        assert(kv.take(kv.len() as int) =~= kv);
    }
    Ok(())
}

/// Add what one restriction on `property` states: someValuesFrom,
/// allValuesFrom, hasValue, then the cardinalities.
fn load_restriction(ts: &Vec<Triple>, key: &String, property: &PropertyExpression, ontology: &mut OwlDlOntology)
    requires
        old(ontology).wf(),
    ensures
        final(ontology).wf(),
        final(ontology).view_of() == add_restriction(old(ontology).view_of(), triples_view(ts@), key@, pe_view(*property)),
        final(ontology).axioms == old(ontology).axioms,
{
    let some_values = "http://www.w3.org/2002/07/owl#someValuesFrom".to_string();
    let all_values = "http://www.w3.org/2002/07/owl#allValuesFrom".to_string();
    let has_value = "http://www.w3.org/2002/07/owl#hasValue".to_string();
    let min_card = "http://www.w3.org/2002/07/owl#minCardinality".to_string();
    let max_card = "http://www.w3.org/2002/07/owl#maxCardinality".to_string();
    let exact_card = "http://www.w3.org/2002/07/owl#exactCardinality".to_string();
    match last_object_of(ts, key, &some_values) {
        Some(c) => {
            let expr = ClassExpression::SomeValuesFrom { property: property.copy(), class: Box::new(iri_to_class_expression(&c)) };
            ontology.add_class_expression(&expr);
        },
        None => {},
    }
    match last_object_of(ts, key, &all_values) {
        Some(c) => {
            let expr = ClassExpression::AllValuesFrom { property: property.copy(), class: Box::new(iri_to_class_expression(&c)) };
            ontology.add_class_expression(&expr);
        },
        None => {},
    }
    match last_object_of(ts, key, &has_value) {
        Some(i) => {
            let expr = ClassExpression::HasValue { property: property.copy(), individual: Individual(OwlIri(i)) };
            ontology.add_class_expression(&expr);
        },
        None => {},
    }
    load_cardinality(ts, key, &min_card, 0, property, ontology);
    load_cardinality(ts, key, &max_card, 1, property, ontology);
    load_cardinality(ts, key, &exact_card, 2, property, ontology);
}

/// Once a prefix of the keys gives an error, every longer prefix gives it.
proof fn lemma_restrictions_stay_err(o: DlOntologyV, ts: Seq<TripleView>, keys: Seq<Seq<char>>, n: int, k: Seq<char>)
    requires
        0 <= n <= keys.len(),
        add_restrictions(o, ts, keys.take(n)) == Err::<DlOntologyV, Seq<char>>(k),
    ensures
        add_restrictions(o, ts, keys) == Err::<DlOntologyV, Seq<char>>(k),
    decreases keys.len() - n,
{
    if n < keys.len() {
        assert(keys.take(n + 1).drop_last() =~= keys.take(n));
        lemma_restrictions_stay_err(o, ts, keys, n + 1, k);
    } else {
        assert(keys.take(n) =~= keys);
    }
}

/// Add the inverse property expressions whose subjects are `keys`.
fn load_inverses(ts: &Vec<Triple>, keys: &Vec<String>, ontology: &mut OwlDlOntology)
    requires
        old(ontology).wf(),
    ensures
        final(ontology).wf(),
        final(ontology).view_of() == add_inverses(old(ontology).view_of(), triples_view(ts@), node_views(keys@)),
        final(ontology).axioms == old(ontology).axioms,
{
    let ghost tv = triples_view(ts@);
    let ghost kv = node_views(keys@);
    let ghost o0 = ontology.view_of();
    let pred = "http://www.w3.org/2002/07/owl#inverseOf".to_string();
    let mut k: usize = 0;
    proof {
        assert(kv.take(0) =~= Seq::<Seq<char>>::empty());
    }
    while k < keys.len()
        invariant
            k <= keys@.len(),
            tv == triples_view(ts@),
            kv == node_views(keys@),
            pred@ == owl_inverse_of(),
            ontology.wf(),
            o0 == old(ontology).view_of(),
            ontology.view_of() == add_inverses(o0, tv, kv.take(k as int)),
            ontology.axioms == old(ontology).axioms,
        decreases keys.len() - k,
    {
        proof {
            assert(kv.take(k + 1).drop_last() =~= kv.take(k as int));
            assert(kv.take(k + 1).last() == keys@[k as int]@);
        }
        let ghost kk = keys@[k as int]@;
        let ghost ob = ontology.view_of();
        match last_object_of(ts, &keys[k], &pred) {
            Some(q) => {
                let ghost qv = q@;
                let base = PropertyExpression::ObjectProperty(OwlIri(keys[k].as_str().to_string()));
                proof {
                    assert(pe_view(base) == PropertyExpressionV::ObjectProperty(kk));
                }
                let inverse = PropertyExpression::InverseOf(Box::new(base));
                ontology.add_property_expression(&inverse);
                let other = PropertyExpression::ObjectProperty(OwlIri(q));
                proof {
                    assert(pe_view(other) == PropertyExpressionV::ObjectProperty(qv));
                }
                let other_inverse = PropertyExpression::InverseOf(Box::new(other));
                ontology.add_property_expression(&other_inverse);
                proof {
                    assert(pe_view(inverse) == PropertyExpressionV::InverseOf(Box::new(PropertyExpressionV::ObjectProperty(kk))));
                    assert(pe_view(other_inverse) == PropertyExpressionV::InverseOf(Box::new(PropertyExpressionV::ObjectProperty(qv))));
                    assert(last_object(tv, kk, owl_inverse_of()) == Some(qv));
                    assert(add_inverses(o0, tv, kv.take(k + 1)) == collect_pe(collect_pe(ob,
                        PropertyExpressionV::InverseOf(Box::new(PropertyExpressionV::ObjectProperty(kk)))),
                        PropertyExpressionV::InverseOf(Box::new(PropertyExpressionV::ObjectProperty(qv)))));
                }
            },
            None => {},
        }
        k += 1;
    }
    proof {
        assert(kv.take(kv.len() as int) =~= kv);
    }
}

/// Reads an OWL DL ontology from a store.
pub trait OwlDlOntologyLoader {
    fn load_from_store(&self, store: &RdfStore) -> Result<OwlDlOntology, OwlDlError>;
}

/// The intersection (or union) of the rdf list that subject `k` names with
/// `pred`, when the list is complete.
pub open spec fn listed_class(ts: Seq<TripleView>, k: Seq<char>, pred: Seq<char>, union: bool) -> Option<ClassExpressionV> {
    match last_object(ts, k, pred) {
        Some(head) => match list_members(ts, head) {
            Some(items) => {
                let parts = items.map_values(|i: Seq<char>| iri_ce(i));
                Some(if union { ClassExpressionV::UnionOf(parts) } else { ClassExpressionV::IntersectionOf(parts) })
            },
            None => None,
        },
        None => None,
    }
}

/// Some restriction among `keys` has no owl:onProperty.
pub open spec fn lacks_property(ts: Seq<TripleView>, keys: Seq<Seq<char>>) -> bool {
    exists|j: int| 0 <= j < keys.len() && first_object(ts, #[trigger] keys[j], owl_on_property()) is None
}

proof fn lemma_add_if_keeps(o: DlOntologyV, v: Option<ClassExpressionV>)
    ensures
        keeps_entities(o, add_if(o, v)),
        v is Some ==> add_if(o, v).class_expressions.contains(v->0),
{
    match v {
        Some(e) => { law_collect_ce_records(o, e); },
        None => { lemma_keeps_refl(o); },
    }
}

proof fn lemma_list_classes_keep(o: DlOntologyV, ts: Seq<TripleView>, keys: Seq<Seq<char>>, pred: Seq<char>, union: bool)
    ensures
        keeps_entities(o, add_list_classes(o, ts, keys, pred, union)),
        forall|j: int| 0 <= j < keys.len() && (#[trigger] listed_class(ts, keys[j], pred, union)) is Some
            ==> add_list_classes(o, ts, keys, pred, union).class_expressions.contains(listed_class(ts, keys[j], pred, union)->0),
    decreases keys.len(),
{
    if keys.len() == 0 {
        lemma_keeps_refl(o);
    } else {
        let k0 = keys.drop_last();
        let o1 = add_list_classes(o, ts, k0, pred, union);
        lemma_list_classes_keep(o, ts, k0, pred, union);
        let v = listed_class(ts, keys.last(), pred, union);
        assert(add_list_classes(o, ts, keys, pred, union) == add_if(o1, v));
        lemma_add_if_keeps(o1, v);
        lemma_keeps_trans(o, o1, add_if(o1, v));
        assert forall|j: int| 0 <= j < keys.len() && (#[trigger] listed_class(ts, keys[j], pred, union)) is Some
            implies add_list_classes(o, ts, keys, pred, union).class_expressions.contains(listed_class(ts, keys[j], pred, union)->0) by {
            if j < keys.len() - 1 {
                assert(k0[j] == keys[j]);
            }
        }
    }
}

proof fn lemma_complements_keep(o: DlOntologyV, ts: Seq<TripleView>, keys: Seq<Seq<char>>)
    ensures
        keeps_entities(o, add_complements(o, ts, keys)),
    decreases keys.len(),
{
    if keys.len() == 0 {
        lemma_keeps_refl(o);
    } else {
        let o1 = add_complements(o, ts, keys.drop_last());
        lemma_complements_keep(o, ts, keys.drop_last());
        match last_object(ts, keys.last(), owl_complement_of()) {
            Some(c) => {
                lemma_add_if_keeps(o1, Some(ClassExpressionV::ComplementOf(Box::new(iri_ce(c)))));
                lemma_keeps_trans(o, o1, add_complements(o, ts, keys));
            },
            None => {},
        }
    }
}

proof fn lemma_enumerations_keep(o: DlOntologyV, ts: Seq<TripleView>, keys: Seq<Seq<char>>)
    ensures
        keeps_entities(o, add_enumerations(o, ts, keys)),
    decreases keys.len(),
{
    if keys.len() == 0 {
        lemma_keeps_refl(o);
    } else {
        let o1 = add_enumerations(o, ts, keys.drop_last());
        lemma_enumerations_keep(o, ts, keys.drop_last());
        match last_object(ts, keys.last(), owl_one_of()) {
            Some(head) => match list_members(ts, head) {
                Some(items) => {
                    lemma_add_if_keeps(o1, Some(ClassExpressionV::OneOf(items)));
                    lemma_keeps_trans(o, o1, add_enumerations(o, ts, keys));
                },
                None => {},
            },
            None => {},
        }
    }
}

proof fn lemma_restriction_keeps(o: DlOntologyV, ts: Seq<TripleView>, k: Seq<char>, p: PropertyExpressionV)
    ensures
        keeps_entities(o, add_restriction(o, ts, k, p)),
{
    let some = match last_object(ts, k, owl_some_values_from()) {
        Some(c) => Some(ClassExpressionV::SomeValuesFrom(p, Box::new(iri_ce(c)))),
        None => None,
    };
    let all = match last_object(ts, k, owl_all_values_from()) {
        Some(c) => Some(ClassExpressionV::AllValuesFrom(p, Box::new(iri_ce(c)))),
        None => None,
    };
    let has = match last_object(ts, k, owl_has_value()) {
        Some(i) => Some(ClassExpressionV::HasValue(p, i)),
        None => None,
    };
    let a1 = add_if(o, some);
    let a2 = add_if(a1, all);
    let a3 = add_if(a2, has);
    let a4 = add_if(a3, cardinality_of(ts, k, owl_min_cardinality(), 0, p));
    let a5 = add_if(a4, cardinality_of(ts, k, owl_max_cardinality(), 1, p));
    let a6 = add_if(a5, cardinality_of(ts, k, owl_exact_cardinality(), 2, p));
    lemma_add_if_keeps(o, some);
    lemma_add_if_keeps(a1, all);
    lemma_add_if_keeps(a2, has);
    lemma_add_if_keeps(a3, cardinality_of(ts, k, owl_min_cardinality(), 0, p));
    lemma_add_if_keeps(a4, cardinality_of(ts, k, owl_max_cardinality(), 1, p));
    lemma_add_if_keeps(a5, cardinality_of(ts, k, owl_exact_cardinality(), 2, p));
    lemma_keeps_trans(o, a1, a2);
    lemma_keeps_trans(o, a2, a3);
    lemma_keeps_trans(o, a3, a4);
    lemma_keeps_trans(o, a4, a5);
    lemma_keeps_trans(o, a5, a6);
    assert(add_restriction(o, ts, k, p) == a6);
}

proof fn lemma_restrictions_outcome(o: DlOntologyV, ts: Seq<TripleView>, keys: Seq<Seq<char>>)
    ensures
        add_restrictions(o, ts, keys) is Err <==> lacks_property(ts, keys),
        add_restrictions(o, ts, keys) matches Err(k) ==> keys.contains(k) && first_object(ts, k, owl_on_property()) is None,
        add_restrictions(o, ts, keys) matches Ok(o2) ==> keeps_entities(o, o2),
    decreases keys.len(),
{
    if keys.len() == 0 {
        lemma_keeps_refl(o);
    } else {
        let k0 = keys.drop_last();
        lemma_restrictions_outcome(o, ts, k0);
        if lacks_property(ts, k0) {
            let j = choose|j: int| 0 <= j < k0.len() && first_object(ts, #[trigger] k0[j], owl_on_property()) is None;
            assert(keys[j] == k0[j]);
        }
        match add_restrictions(o, ts, k0) {
            Err(k) => {
                let j = choose|j: int| 0 <= j < k0.len() && k0[j] == k;
                assert(keys[j] == k);
            },
            Ok(o1) => {
                match first_object(ts, keys.last(), owl_on_property()) {
                    None => {
                        assert(keys[keys.len() - 1] == keys.last());
                    },
                    Some(p) => {
                        lemma_restriction_keeps(o1, ts, keys.last(), PropertyExpressionV::ObjectProperty(p));
                        lemma_keeps_trans(o, o1, add_restriction(o1, ts, keys.last(), PropertyExpressionV::ObjectProperty(p)));
                        assert forall|j: int| 0 <= j < keys.len() implies first_object(ts, #[trigger] keys[j], owl_on_property()) is Some by {
                            if j < keys.len() - 1 {
                                assert(k0[j] == keys[j]);
                            }
                        }
                    },
                }
            },
        }
    }
}

proof fn lemma_inverses_keep(o: DlOntologyV, ts: Seq<TripleView>, keys: Seq<Seq<char>>)
    ensures
        keeps_entities(o, add_inverses(o, ts, keys)),
    decreases keys.len(),
{
    if keys.len() == 0 {
        lemma_keeps_refl(o);
    } else {
        let o1 = add_inverses(o, ts, keys.drop_last());
        lemma_inverses_keep(o, ts, keys.drop_last());
        match last_object(ts, keys.last(), owl_inverse_of()) {
            Some(q) => {
                let p1 = PropertyExpressionV::InverseOf(Box::new(PropertyExpressionV::ObjectProperty(keys.last())));
                let p2 = PropertyExpressionV::InverseOf(Box::new(PropertyExpressionV::ObjectProperty(q)));
                lemma_collect_pe_keeps(o1, p1);
                lemma_collect_pe_keeps(collect_pe(o1, p1), p2);
                lemma_keeps_trans(o, o1, collect_pe(o1, p1));
                lemma_keeps_trans(o, collect_pe(o1, p1), collect_pe(collect_pe(o1, p1), p2));
            },
            None => {},
        }
    }
}

/// The number that the last `pred` triple of restriction `k` states, when
/// it parses.
pub open spec fn stated_count(ts: Seq<TripleView>, k: Seq<char>, pred: Seq<char>) -> Option<u32> {
    match last_object(ts, k, pred) {
        Some(v) => parse_u32_spec(v),
        None => None,
    }
}

proof fn lemma_restriction_records(o: DlOntologyV, ts: Seq<TripleView>, k: Seq<char>, p: PropertyExpressionV)
    ensures
        last_object(ts, k, owl_some_values_from()) matches Some(c) ==> add_restriction(o, ts, k, p).class_expressions.contains(
            ClassExpressionV::SomeValuesFrom(p, Box::new(iri_ce(c)))),
        last_object(ts, k, owl_all_values_from()) matches Some(c) ==> add_restriction(o, ts, k, p).class_expressions.contains(
            ClassExpressionV::AllValuesFrom(p, Box::new(iri_ce(c)))),
        last_object(ts, k, owl_has_value()) matches Some(i) ==> add_restriction(o, ts, k, p).class_expressions.contains(
            ClassExpressionV::HasValue(p, i)),
        stated_count(ts, k, owl_min_cardinality()) matches Some(n) ==> add_restriction(o, ts, k, p).class_expressions.contains(
            ClassExpressionV::MinCardinality(n, p, None)),
        stated_count(ts, k, owl_max_cardinality()) matches Some(n) ==> add_restriction(o, ts, k, p).class_expressions.contains(
            ClassExpressionV::MaxCardinality(n, p, None)),
        stated_count(ts, k, owl_exact_cardinality()) matches Some(n) ==> add_restriction(o, ts, k, p).class_expressions.contains(
            ClassExpressionV::ExactCardinality(n, p, None)),
{
    let some = match last_object(ts, k, owl_some_values_from()) {
        Some(c) => Some(ClassExpressionV::SomeValuesFrom(p, Box::new(iri_ce(c)))),
        None => None,
    };
    let all = match last_object(ts, k, owl_all_values_from()) {
        Some(c) => Some(ClassExpressionV::AllValuesFrom(p, Box::new(iri_ce(c)))),
        None => None,
    };
    let has = match last_object(ts, k, owl_has_value()) {
        Some(i) => Some(ClassExpressionV::HasValue(p, i)),
        None => None,
    };
    let a1 = add_if(o, some);
    let a2 = add_if(a1, all);
    let a3 = add_if(a2, has);
    let a4 = add_if(a3, cardinality_of(ts, k, owl_min_cardinality(), 0, p));
    let a5 = add_if(a4, cardinality_of(ts, k, owl_max_cardinality(), 1, p));
    let a6 = add_if(a5, cardinality_of(ts, k, owl_exact_cardinality(), 2, p));
    lemma_add_if_keeps(o, some);
    lemma_add_if_keeps(a1, all);
    lemma_add_if_keeps(a2, has);
    lemma_add_if_keeps(a3, cardinality_of(ts, k, owl_min_cardinality(), 0, p));
    lemma_add_if_keeps(a4, cardinality_of(ts, k, owl_max_cardinality(), 1, p));
    lemma_add_if_keeps(a5, cardinality_of(ts, k, owl_exact_cardinality(), 2, p));
    lemma_keeps_trans(a1, a2, a3);
    lemma_keeps_trans(a1, a3, a4);
    lemma_keeps_trans(a1, a4, a5);
    lemma_keeps_trans(a1, a5, a6);
    lemma_keeps_trans(a2, a3, a4);
    lemma_keeps_trans(a2, a4, a5);
    lemma_keeps_trans(a2, a5, a6);
    lemma_keeps_trans(a3, a4, a5);
    lemma_keeps_trans(a3, a5, a6);
    assert(add_restriction(o, ts, k, p) == a6);
}

proof fn lemma_restrictions_record(o: DlOntologyV, ts: Seq<TripleView>, keys: Seq<Seq<char>>, j: int, q: Seq<char>)
    requires
        0 <= j < keys.len(),
        first_object(ts, keys[j], owl_on_property()) == Some(q),
    ensures
        add_restrictions(o, ts, keys) matches Ok(o2) ==> {
            &&& (last_object(ts, keys[j], owl_some_values_from()) matches Some(c) ==> o2.class_expressions.contains(
                ClassExpressionV::SomeValuesFrom(PropertyExpressionV::ObjectProperty(q), Box::new(iri_ce(c)))))
            &&& (last_object(ts, keys[j], owl_all_values_from()) matches Some(c) ==> o2.class_expressions.contains(
                ClassExpressionV::AllValuesFrom(PropertyExpressionV::ObjectProperty(q), Box::new(iri_ce(c)))))
            &&& (last_object(ts, keys[j], owl_has_value()) matches Some(i) ==> o2.class_expressions.contains(
                ClassExpressionV::HasValue(PropertyExpressionV::ObjectProperty(q), i)))
            &&& (stated_count(ts, keys[j], owl_min_cardinality()) matches Some(n) ==> o2.class_expressions.contains(
                ClassExpressionV::MinCardinality(n, PropertyExpressionV::ObjectProperty(q), None)))
            &&& (stated_count(ts, keys[j], owl_max_cardinality()) matches Some(n) ==> o2.class_expressions.contains(
                ClassExpressionV::MaxCardinality(n, PropertyExpressionV::ObjectProperty(q), None)))
            &&& (stated_count(ts, keys[j], owl_exact_cardinality()) matches Some(n) ==> o2.class_expressions.contains(
                ClassExpressionV::ExactCardinality(n, PropertyExpressionV::ObjectProperty(q), None)))
        },
    decreases keys.len(),
{
    let k0 = keys.drop_last();
    if let Ok(o2) = add_restrictions(o, ts, keys) {
        let o1 = add_restrictions(o, ts, k0)->Ok_0;
        let p = PropertyExpressionV::ObjectProperty(first_object(ts, keys.last(), owl_on_property())->Some_0);
        assert(o2 == add_restriction(o1, ts, keys.last(), p));
        if j == keys.len() - 1 {
            lemma_restriction_records(o1, ts, keys.last(), p);
        } else {
            assert(k0[j] == keys[j]);
            lemma_restrictions_record(o, ts, k0, j, q);
            lemma_restriction_keeps(o1, ts, keys.last(), p);
        }
    }
}

/// A restriction on property `q` loads as what it states of `q`: for
/// owl:someValuesFrom `c` the existential restriction to `c`, for
/// owl:allValuesFrom `c` the universal one, for owl:hasValue `i` the value
/// restriction to `i`, for owl:minCardinality `n` the minimum cardinality
/// `n`, for owl:maxCardinality `n` the maximum cardinality `n`, and for
/// owl:exactCardinality `n` the exact cardinality `n`, each cardinality
/// without a class.
pub proof fn law_restrictions_load(o: DlOntologyV, ts: Seq<TripleView>, k: Seq<char>, q: Seq<char>)
    requires
        subjects_in(ts, restriction_preds()).contains(k),
        first_object(ts, k, owl_on_property()) == Some(q),
    ensures
        dl_constructs_spec(o, ts) matches Ok(o2) ==> {
            &&& (last_object(ts, k, owl_some_values_from()) matches Some(c) ==> o2.class_expressions.contains(
                ClassExpressionV::SomeValuesFrom(PropertyExpressionV::ObjectProperty(q), Box::new(iri_ce(c)))))
            &&& (last_object(ts, k, owl_all_values_from()) matches Some(c) ==> o2.class_expressions.contains(
                ClassExpressionV::AllValuesFrom(PropertyExpressionV::ObjectProperty(q), Box::new(iri_ce(c)))))
            &&& (last_object(ts, k, owl_has_value()) matches Some(i) ==> o2.class_expressions.contains(
                ClassExpressionV::HasValue(PropertyExpressionV::ObjectProperty(q), i)))
            &&& (stated_count(ts, k, owl_min_cardinality()) matches Some(n) ==> o2.class_expressions.contains(
                ClassExpressionV::MinCardinality(n, PropertyExpressionV::ObjectProperty(q), None)))
            &&& (stated_count(ts, k, owl_max_cardinality()) matches Some(n) ==> o2.class_expressions.contains(
                ClassExpressionV::MaxCardinality(n, PropertyExpressionV::ObjectProperty(q), None)))
            &&& (stated_count(ts, k, owl_exact_cardinality()) matches Some(n) ==> o2.class_expressions.contains(
                ClassExpressionV::ExactCardinality(n, PropertyExpressionV::ObjectProperty(q), None)))
        },
{
    let ki = subjects_in(ts, seq![owl_intersection_of()]);
    let ku = subjects_in(ts, seq![owl_union_of()]);
    let kr = subjects_in(ts, restriction_preds());
    let o1 = add_list_classes(o, ts, ki, owl_intersection_of(), false);
    let o2 = add_list_classes(o1, ts, ku, owl_union_of(), true);
    let o3 = add_complements(o2, ts, subjects_in(ts, seq![owl_complement_of()]));
    let o4 = add_enumerations(o3, ts, subjects_in(ts, seq![owl_one_of()]));
    if let Ok(o5) = add_restrictions(o4, ts, kr) {
        let j = choose|j: int| 0 <= j < kr.len() && kr[j] == k;
        lemma_restrictions_record(o4, ts, kr, j, q);
        lemma_inverses_keep(o5, ts, subjects_in(ts, seq![owl_inverse_of()]));
    }
}

proof fn lemma_complements_record(o: DlOntologyV, ts: Seq<TripleView>, keys: Seq<Seq<char>>, j: int)
    requires
        0 <= j < keys.len(),
    ensures
        last_object(ts, keys[j], owl_complement_of()) matches Some(c) ==>
            add_complements(o, ts, keys).class_expressions.contains(ClassExpressionV::ComplementOf(Box::new(iri_ce(c)))),
    decreases keys.len(),
{
    let k0 = keys.drop_last();
    let o1 = add_complements(o, ts, k0);
    let v = match last_object(ts, keys.last(), owl_complement_of()) {
        Some(c) => Some(ClassExpressionV::ComplementOf(Box::new(iri_ce(c)))),
        None => None,
    };
    assert(add_complements(o, ts, keys) == add_if(o1, v));
    lemma_add_if_keeps(o1, v);
    if j < keys.len() - 1 {
        assert(k0[j] == keys[j]);
        lemma_complements_record(o, ts, k0, j);
    }
}

proof fn lemma_enumerations_record(o: DlOntologyV, ts: Seq<TripleView>, keys: Seq<Seq<char>>, j: int)
    requires
        0 <= j < keys.len(),
    ensures
        last_object(ts, keys[j], owl_one_of()) matches Some(head) ==> (list_members(ts, head) matches Some(items) ==>
            add_enumerations(o, ts, keys).class_expressions.contains(ClassExpressionV::OneOf(items))),
    decreases keys.len(),
{
    let k0 = keys.drop_last();
    let o1 = add_enumerations(o, ts, k0);
    let v = match last_object(ts, keys.last(), owl_one_of()) {
        Some(head) => match list_members(ts, head) {
            Some(items) => Some(ClassExpressionV::OneOf(items)),
            None => None,
        },
        None => None,
    };
    assert(add_enumerations(o, ts, keys) == add_if(o1, v));
    lemma_add_if_keeps(o1, v);
    if j < keys.len() - 1 {
        assert(k0[j] == keys[j]);
        lemma_enumerations_record(o, ts, k0, j);
    }
}

/// A subject stated owl:complementOf a class `c` loads as the complement of
/// `c`, and a subject stated owl:oneOf a complete rdf list of individuals
/// loads as the enumeration of those individuals, in the list's order.
pub proof fn law_complements_enumerations_load(o: DlOntologyV, ts: Seq<TripleView>, k: Seq<char>)
    ensures
        dl_constructs_spec(o, ts) matches Ok(o2) ==> {
            &&& (subjects_in(ts, seq![owl_complement_of()]).contains(k) ==> (last_object(ts, k, owl_complement_of()) matches Some(c)
                ==> o2.class_expressions.contains(ClassExpressionV::ComplementOf(Box::new(iri_ce(c))))))
            &&& (subjects_in(ts, seq![owl_one_of()]).contains(k) ==> (last_object(ts, k, owl_one_of()) matches Some(head)
                ==> (list_members(ts, head) matches Some(items) ==> o2.class_expressions.contains(ClassExpressionV::OneOf(items)))))
        },
{
    let ki = subjects_in(ts, seq![owl_intersection_of()]);
    let ku = subjects_in(ts, seq![owl_union_of()]);
    let kc = subjects_in(ts, seq![owl_complement_of()]);
    let ke = subjects_in(ts, seq![owl_one_of()]);
    let kr = subjects_in(ts, restriction_preds());
    let o1 = add_list_classes(o, ts, ki, owl_intersection_of(), false);
    let o2 = add_list_classes(o1, ts, ku, owl_union_of(), true);
    let o3 = add_complements(o2, ts, kc);
    let o4 = add_enumerations(o3, ts, ke);
    lemma_enumerations_keep(o3, ts, ke);
    lemma_restrictions_outcome(o4, ts, kr);
    if let Ok(o5) = add_restrictions(o4, ts, kr) {
        let o6 = add_inverses(o5, ts, subjects_in(ts, seq![owl_inverse_of()]));
        lemma_inverses_keep(o5, ts, subjects_in(ts, seq![owl_inverse_of()]));
        lemma_keeps_trans(o4, o5, o6);
        lemma_keeps_trans(o3, o4, o6);
        if kc.contains(k) {
            let j = choose|j: int| 0 <= j < kc.len() && kc[j] == k;
            lemma_complements_record(o2, ts, kc, j);
        }
        if ke.contains(k) {
            let j = choose|j: int| 0 <= j < ke.len() && ke[j] == k;
            lemma_enumerations_record(o3, ts, ke, j);
        }
    }
}

/// Adding the OWL DL constructs of a store fails exactly when some
/// restriction (a subject of owl:someValuesFrom, owl:allValuesFrom,
/// owl:hasValue or a cardinality) has no owl:onProperty, and the error
/// names such a restriction. Otherwise the ontology keeps its statements
/// and everything it had recorded, and holds the intersection and the
/// union of every complete rdf list that a subject names with
/// owl:intersectionOf or owl:unionOf.
pub proof fn law_dl_constructs(o: DlOntologyV, ts: Seq<TripleView>)
    ensures
        dl_constructs_spec(o, ts) is Err <==> lacks_property(ts, subjects_in(ts, restriction_preds())),
        dl_constructs_spec(o, ts) matches Err(k) ==> subjects_in(ts, restriction_preds()).contains(k)
            && first_object(ts, k, owl_on_property()) is None,
        dl_constructs_spec(o, ts) matches Ok(o2) ==> {
            &&& keeps_entities(o, o2)
            &&& forall|k: Seq<char>| subjects_in(ts, seq![owl_intersection_of()]).contains(k)
                && (#[trigger] listed_class(ts, k, owl_intersection_of(), false)) is Some
                ==> o2.class_expressions.contains(listed_class(ts, k, owl_intersection_of(), false)->0)
            &&& forall|k: Seq<char>| subjects_in(ts, seq![owl_union_of()]).contains(k)
                && (#[trigger] listed_class(ts, k, owl_union_of(), true)) is Some
                ==> o2.class_expressions.contains(listed_class(ts, k, owl_union_of(), true)->0)
        },
{
    let ki = subjects_in(ts, seq![owl_intersection_of()]);
    let ku = subjects_in(ts, seq![owl_union_of()]);
    let o1 = add_list_classes(o, ts, ki, owl_intersection_of(), false);
    let o2 = add_list_classes(o1, ts, ku, owl_union_of(), true);
    let o3 = add_complements(o2, ts, subjects_in(ts, seq![owl_complement_of()]));
    let o4 = add_enumerations(o3, ts, subjects_in(ts, seq![owl_one_of()]));
    lemma_list_classes_keep(o, ts, ki, owl_intersection_of(), false);
    lemma_list_classes_keep(o1, ts, ku, owl_union_of(), true);
    lemma_complements_keep(o2, ts, subjects_in(ts, seq![owl_complement_of()]));
    lemma_enumerations_keep(o3, ts, subjects_in(ts, seq![owl_one_of()]));
    lemma_restrictions_outcome(o4, ts, subjects_in(ts, restriction_preds()));
    lemma_keeps_trans(o, o1, o2);
    lemma_keeps_trans(o1, o2, o3);
    lemma_keeps_trans(o2, o3, o4);
    lemma_keeps_trans(o, o2, o4);
    match add_restrictions(o4, ts, subjects_in(ts, restriction_preds())) {
        Err(k) => {},
        Ok(o5) => {
            let o6 = add_inverses(o5, ts, subjects_in(ts, seq![owl_inverse_of()]));
            lemma_inverses_keep(o5, ts, subjects_in(ts, seq![owl_inverse_of()]));
            lemma_keeps_trans(o4, o5, o6);
            lemma_keeps_trans(o2, o4, o6);
            lemma_keeps_trans(o1, o2, o6);
            lemma_keeps_trans(o, o1, o6);
            assert forall|k: Seq<char>| ki.contains(k) && (#[trigger] listed_class(ts, k, owl_intersection_of(), false)) is Some
                implies o6.class_expressions.contains(listed_class(ts, k, owl_intersection_of(), false)->0) by {
                let j = choose|j: int| 0 <= j < ki.len() && ki[j] == k;
                assert(listed_class(ts, ki[j], owl_intersection_of(), false) is Some);
            }
            assert forall|k: Seq<char>| ku.contains(k) && (#[trigger] listed_class(ts, k, owl_union_of(), true)) is Some
                implies o6.class_expressions.contains(listed_class(ts, k, owl_union_of(), true)->0) by {
                let j = choose|j: int| 0 <= j < ku.len() && ku[j] == k;
                assert(listed_class(ts, ku[j], owl_union_of(), true) is Some);
            }
        },
    }
}


/// Default OWL DL ontology loader: the OWL Lite loader, then the OWL DL
/// constructs.
#[derive(Debug)]
pub struct DefaultOwlDlOntologyLoader {
    lite_loader: DefaultOntologyLoader,
    lite_reasoner: OwlLiteReasoner,
}

/// The ontology that loading `ts` gives, or the restriction without an
/// owl:onProperty.
pub open spec fn dl_load_spec(ts: Seq<TripleView>) -> Result<DlOntologyV, Seq<char>> {
    dl_constructs_spec(from_lite_spec(load_spec(ts)), ts)
}

impl DefaultOwlDlOntologyLoader {
    /// The loader's OWL Lite reasoner is well formed and has checked nothing.
    pub closed spec fn fresh(&self) -> bool {
        &&& self.lite_reasoner.wf()
        &&& forall|i: Seq<char>| !self.lite_reasoner.completion().has_node(i)
    }

    /// A loader whose OWL Lite reasoner has checked nothing.
    pub fn new() -> (r: Self)
        ensures
            r.fresh(),
    {
        DefaultOwlDlOntologyLoader { lite_loader: DefaultOntologyLoader, lite_reasoner: OwlLiteReasoner::new() }
    }

    /// Add the OWL DL constructs of the store to the ontology: intersections,
    /// unions, complements and enumerations of the classes the store
    /// declares, restrictions with their property, and inverse properties.
    pub fn load_dl_constructs(&self, store: &RdfStore, ontology: &mut OwlDlOntology) -> (r: Result<(), OwlDlError>)
        requires
            old(ontology).wf(),
        ensures
            final(ontology).wf(),
            final(ontology).axioms == old(ontology).axioms,
            match dl_constructs_spec(old(ontology).view_of(), store.view_triples()) {
                Ok(o) => r is Ok && final(ontology).view_of() == o,
                Err(k) => r matches Err(OwlDlError::LoaderError(m)) && m@ == no_property_message(k),
            },
    {
        let ts = store.all_triples();
        let iri_intersection_of = "http://www.w3.org/2002/07/owl#intersectionOf".to_string();
        let iri_union_of = "http://www.w3.org/2002/07/owl#unionOf".to_string();
        let iri_complement_of = "http://www.w3.org/2002/07/owl#complementOf".to_string();
        let iri_one_of = "http://www.w3.org/2002/07/owl#oneOf".to_string();
        let iri_inverse_of = "http://www.w3.org/2002/07/owl#inverseOf".to_string();
        let restriction_predicates = vec![
            "http://www.w3.org/2002/07/owl#someValuesFrom".to_string(),
            "http://www.w3.org/2002/07/owl#allValuesFrom".to_string(),
            "http://www.w3.org/2002/07/owl#hasValue".to_string(),
            "http://www.w3.org/2002/07/owl#minCardinality".to_string(),
            "http://www.w3.org/2002/07/owl#maxCardinality".to_string(),
            "http://www.w3.org/2002/07/owl#exactCardinality".to_string(),
        ];
        proof {
            assert(node_views(restriction_predicates@) =~= restriction_preds());
        }
        let intersection_preds = vec![iri_intersection_of.as_str().to_string()];
        let union_preds = vec![iri_union_of.as_str().to_string()];
        let complement_preds = vec![iri_complement_of.as_str().to_string()];
        let enumeration_preds = vec![iri_one_of.as_str().to_string()];
        let inverse_preds = vec![iri_inverse_of.as_str().to_string()];
        proof {
            assert(node_views(intersection_preds@) =~= seq![owl_intersection_of()]);
            assert(node_views(union_preds@) =~= seq![owl_union_of()]);
            assert(node_views(complement_preds@) =~= seq![owl_complement_of()]);
            assert(node_views(enumeration_preds@) =~= seq![owl_one_of()]);
            assert(node_views(inverse_preds@) =~= seq![owl_inverse_of()]);
        }
        let intersection_keys = subjects_with(ts, &intersection_preds);
        let union_keys = subjects_with(ts, &union_preds);
        let complement_keys = subjects_with(ts, &complement_preds);
        let enumeration_keys = subjects_with(ts, &enumeration_preds);
        let restriction_keys = subjects_with(ts, &restriction_predicates);
        let inverse_keys = subjects_with(ts, &inverse_preds);
        load_list_classes(ts, &intersection_keys, &iri_intersection_of, false, ontology);
        load_list_classes(ts, &union_keys, &iri_union_of, true, ontology);
        load_complements(ts, &complement_keys, ontology);
        load_enumerations(ts, &enumeration_keys, ontology);
        match load_restrictions(ts, &restriction_keys, ontology) {
            Ok(()) => {},
            Err(e) => { return Err(e); },
        }
        load_inverses(ts, &inverse_keys, ontology);
        Ok(())
    }
}

impl OwlDlOntologyLoader for DefaultOwlDlOntologyLoader {
    /// Load the store as OWL Lite, carry the result over, then add the OWL DL
    /// constructs.
    fn load_from_store(&self, store: &RdfStore) -> (r: Result<OwlDlOntology, OwlDlError>)
        ensures
            match dl_load_spec(store.view_triples()) {
                Ok(o) => r is Ok && r->Ok_0.wf() && r->Ok_0.view_of() == o,
                Err(k) => r matches Err(OwlDlError::LoaderError(m)) && m@ == no_property_message(k),
            },
    {
        let lite_ontology = match self.lite_reasoner.load_ontology(store) {
            Ok(o) => o,
            Err(e) => {
                return Err(OwlDlError::LoaderError(join("Failed to load as OWL Lite: ", e.to_string().as_str())));
            },
        };
        let mut dl_ontology = OwlDlReasoner::from_lite(lite_ontology);
        match self.load_dl_constructs(store, &mut dl_ontology) {
            Ok(()) => {},
            Err(e) => { return Err(e); },
        }
        Ok(dl_ontology)
    }
}

} // verus!
