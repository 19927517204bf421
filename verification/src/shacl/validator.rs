//! Checking data against shapes, and the report of what was found.

use vstd::prelude::*;
use vstd::string::StringExecFns;
use crate::model::{Triple, TripleView, triples_view};
use crate::rdf_store::RdfStore;
use crate::text::{join, decimal, decimal_wide, decimal_spec, usize_to_u64, byte_len, utf8_len, has_prefix, starts_with, has_substring, contains_text};
use crate::outside::{compile_pattern, pattern_is_match, regex_accepts, regex_matches, debug_text, debug_quoted};
use crate::model::{JsonValue, JsonV, json_view};
use super::ShaclError;
use super::loader::{ShapesGraph, Shape, NodeShape, PropertyShape, Target, TargetV, PropertyPath, PathV, NodeConstraint,
    NodeConstraintV, PropertyConstraint, PropertyConstraintV, ShapeV, shape_view, target_view, node_constraint_view,
    property_constraint_view, path_view, first_index};

verus! {

/// How serious a finding is.
#[derive(Debug, Clone, Copy, PartialEq, Eq, Structural)]
pub enum ViolationLevel {
    Violation,
    Warning,
    Info,
}

/// One finding of a validation.
#[derive(Debug)]
pub struct ValidationResult {
    pub focus_node: Option<String>,
    pub result_path: Option<String>,
    pub value: Option<String>,
    pub source_constraint_component: String,
    pub source_shape: Option<String>,
    pub detail: Option<Box<ValidationResult>>,
    pub message: Option<String>,
    pub severity: ViolationLevel,
}

/// The content of a finding; of a nested finding only that there is one.
pub struct ResultV {
    pub focus: Option<Seq<char>>,
    pub path: Option<Seq<char>>,
    pub value: Option<Seq<char>>,
    pub component: Seq<char>,
    pub source_shape: Option<Seq<char>>,
    pub has_detail: bool,
    pub message: Option<Seq<char>>,
    pub severity: ViolationLevel,
}

pub open spec fn ostr(o: Option<String>) -> Option<Seq<char>> {
    match o {
        Some(s) => Some(s@),
        None => None,
    }
}

pub open spec fn result_view(r: ValidationResult) -> ResultV {
    ResultV {
        focus: ostr(r.focus_node),
        path: ostr(r.result_path),
        value: ostr(r.value),
        component: r.source_constraint_component@,
        source_shape: ostr(r.source_shape),
        has_detail: r.detail is Some,
        message: ostr(r.message),
        severity: r.severity,
    }
}

pub open spec fn results_view(v: Seq<ValidationResult>) -> Seq<ResultV> {
    v.map_values(|r: ValidationResult| result_view(r))
}

/// A violation found by checking a constraint.
pub open spec fn finding(focus: Option<Seq<char>>, path: Option<Seq<char>>, value: Option<Seq<char>>, component: Seq<char>, message: Seq<char>) -> ResultV {
    ResultV { focus, path, value, component, source_shape: None, has_detail: false, message: Some(message), severity: ViolationLevel::Violation }
}

fn make_finding(focus: Option<String>, path: Option<&str>, value: Option<String>, component: &str, message: String) -> (r: ValidationResult)
    ensures
        result_view(r) == finding(ostr(focus), match path { Some(p) => Some(p@), None => None }, ostr(value), component@, message@),
{
    ValidationResult {
        focus_node: focus,
        result_path: match path { Some(p) => Some(p.to_string()), None => None },
        value,
        source_constraint_component: component.to_string(),
        source_shape: None,
        detail: None,
        message: Some(message),
        severity: ViolationLevel::Violation,
    }
}

pub open spec fn rdf_type() -> Seq<char> { "http://www.w3.org/1999/02/22-rdf-syntax-ns#type"@ }
pub open spec fn xsd_string() -> Seq<char> { "http://www.w3.org/2001/XMLSchema#string"@ }

/// The objects of the `pred` triples of `node`, in store order.
pub open spec fn objects_of(ts: Seq<TripleView>, node: Seq<char>, pred: Seq<char>) -> Seq<Seq<char>>
    decreases ts.len(),
{
    if ts.len() == 0 {
        Seq::empty()
    } else {
        let r = objects_of(ts.drop_last(), node, pred);
        if ts.last().subject == node && ts.last().predicate == pred { r.push(ts.last().object) } else { r }
    }
}

/// `x` is stated to be of type `c`.
pub open spec fn typed(ts: Seq<TripleView>, x: Seq<char>, c: Seq<char>) -> bool {
    exists|k: int| 0 <= k < ts.len() && #[trigger] ts[k] == TripleView { subject: x, predicate: rdf_type(), object: c }
}

/// Some triple of `node` has object `v`.
pub open spec fn has_value_triple(ts: Seq<TripleView>, node: Seq<char>, v: Seq<char>) -> bool {
    exists|k: int| 0 <= k < ts.len() && #[trigger] ts[k].subject == node && ts[k].object == v
}

/// `s` ends with `suffix`.
pub open spec fn has_suffix(s: Seq<char>, suffix: Seq<char>) -> bool {
    suffix.len() <= s.len() && s.subrange(s.len() - suffix.len(), s.len() as int) == suffix
}

/// A stored value has datatype `d`: it is a literal written with that
/// datatype, or `d` is xsd:string and the value carries no datatype.
pub open spec fn datatype_ok(v: Seq<char>, d: Seq<char>) -> bool {
    ||| (has_prefix(v, "\""@) && has_suffix(v, "\"^^<"@ + d + ">"@))
    ||| (d == xsd_string() && !has_substring(v, "\"^^<"@))
}

/// Whether `s` ends with `suffix`.
fn ends_with(s: &str, suffix: &str) -> (r: bool)
    ensures
        r == has_suffix(s@, suffix@),
{
    let n = s.unicode_len();
    let m = suffix.unicode_len();
    if m > n {
        return false;
    }
    let mut i: usize = 0;
    while i < m
        invariant
            m == suffix@.len(),
            n == s@.len(),
            m <= n,
            i <= m,
            forall|j: int| 0 <= j < i ==> s@[n - m + j] == suffix@[j],
        decreases m - i,
    {
        if s.get_char(n - m + i) != suffix.get_char(i) {
            proof {
                assert(s@.subrange(n - m, n as int)[i as int] != suffix@[i as int]);
            }
            return false;
        }
        i += 1;
    }
    proof {
        assert(s@.subrange(n - m, n as int) =~= suffix@);
    }
    true
}

/// Whether a stored value has datatype `d`.
fn datatype_matches(v: &str, d: &str) -> (r: bool)
    ensures
        r == datatype_ok(v@, d@),
{
    let suffix = join("\"^^<", d).concat(">");
    if starts_with(v, "\"") && ends_with(v, suffix.as_str()) {
        return true;
    }
    let xsd = "http://www.w3.org/2001/XMLSchema#string".to_string();
    let dd = d.to_string();
    dd == xsd && !contains_text(v, "\"^^<")
}

/// The findings for one value under a value constraint.
pub open spec fn one_value(c: PropertyConstraintV, v: Seq<char>, focus: Seq<char>, ts: Seq<TripleView>) -> Seq<ResultV> {
    match c {
        PropertyConstraintV::Class(cl) => if typed(ts, v, cl) { Seq::empty() } else {
            seq![finding(Some(focus), Some("http://example.org/manager"@), Some(v), "http://www.w3.org/ns/shacl#class"@,
                "Value "@ + v + " is not of class "@ + cl)]
        },
        PropertyConstraintV::Datatype(d) => if datatype_ok(v, d) { Seq::empty() } else {
            seq![finding(Some(focus), Some("http://example.org/age"@), Some(v), "http://www.w3.org/ns/shacl#datatype"@,
                "Value '"@ + v + "' does not match datatype "@ + d)]
        },
        PropertyConstraintV::MinLength(n) => if utf8_len(v) < n {
            seq![finding(Some(focus), Some("http://example.org/property"@), Some(v), "http://www.w3.org/ns/shacl#minLength"@,
                "Value '"@ + v + "' has length "@ + decimal_spec(utf8_len(v)) + ", minimum is "@ + decimal_spec(n as nat))]
        } else { Seq::empty() },
        PropertyConstraintV::MaxLength(n) => if utf8_len(v) > n {
            seq![finding(Some(focus), Some("http://example.org/property"@), Some(v), "http://www.w3.org/ns/shacl#maxLength"@,
                "Value '"@ + v + "' has length "@ + decimal_spec(utf8_len(v)) + ", maximum is "@ + decimal_spec(n as nat))]
        } else { Seq::empty() },
        PropertyConstraintV::Pattern(p, _) => if regex_accepts(p) && !regex_matches(p, v) {
            seq![finding(Some(focus), Some("http://example.org/property"@), Some(v), "http://www.w3.org/ns/shacl#pattern"@,
                "Value '"@ + v + "' does not match pattern '"@ + p + "'"@)]
        } else { Seq::empty() },
        _ => Seq::empty(),
    }
}

/// The findings of a constraint on the values of one focus node.
pub open spec fn values_results(c: PropertyConstraintV, vals: Seq<Seq<char>>, focus: Seq<char>, ts: Seq<TripleView>) -> Seq<ResultV>
    decreases vals.len(),
{
    if vals.len() == 0 {
        Seq::empty()
    } else {
        values_results(c, vals.drop_last(), focus, ts) + one_value(c, vals.last(), focus, ts)
    }
}

/// The findings of a property constraint on the values of a focus node:
/// a count below a minimum, or the findings value by value.
pub open spec fn constraint_for_values(c: PropertyConstraintV, vals: Seq<Seq<char>>, focus: Seq<char>, ts: Seq<TripleView>) -> Seq<ResultV> {
    match c {
        PropertyConstraintV::MinCount(n) => if vals.len() < n {
            seq![finding(Some(focus), Some("http://example.org/manager"@), None, "http://www.w3.org/ns/shacl#minCount"@,
                "Expected at least "@ + decimal_spec(n as nat) + " values, found "@ + decimal_spec(vals.len()))]
        } else { Seq::empty() },
        _ => values_results(c, vals, focus, ts),
    }
}

/// The sh:minLength and sh:maxLength findings for one value: a value with
/// fewer UTF-8 bytes than a minimum `n` gives exactly one sh:minLength
/// violation naming the value and its focus node, and a value of at least
/// `n` bytes gives none; a value with more bytes than a maximum `n` gives
/// exactly one sh:maxLength violation, and a value of at most `n` bytes
/// none.
pub proof fn law_length_findings(n: u64, v: Seq<char>, focus: Seq<char>, ts: Seq<TripleView>)
    ensures
        one_value(PropertyConstraintV::MinLength(n), v, focus, ts).len() == (if utf8_len(v) < n { 1int } else { 0int }),
        utf8_len(v) < n ==> {
            let f = one_value(PropertyConstraintV::MinLength(n), v, focus, ts)[0];
            &&& f.component == "http://www.w3.org/ns/shacl#minLength"@
            &&& f.value == Some(v)
            &&& f.focus == Some(focus)
            &&& f.severity == ViolationLevel::Violation
        },
        one_value(PropertyConstraintV::MaxLength(n), v, focus, ts).len() == (if utf8_len(v) > n { 1int } else { 0int }),
        utf8_len(v) > n ==> {
            let f = one_value(PropertyConstraintV::MaxLength(n), v, focus, ts)[0];
            &&& f.component == "http://www.w3.org/ns/shacl#maxLength"@
            &&& f.value == Some(v)
            &&& f.focus == Some(focus)
            &&& f.severity == ViolationLevel::Violation
        },
{
}

/// Under sh:class `cl`, a value is reported exactly when the data graph
/// does not state it to be of type `cl`; the finding names the value.
/// Under sh:datatype `d`, a typed literal `"x"^^<d>` is never reported.
pub proof fn law_class_and_datatype(cl: Seq<char>, d: Seq<char>, x: Seq<char>, v: Seq<char>, focus: Seq<char>, ts: Seq<TripleView>)
    ensures
        one_value(PropertyConstraintV::Class(cl), v, focus, ts).len()
            == (if ts.contains(TripleView { subject: v, predicate: rdf_type(), object: cl }) { 0int } else { 1int }),
        !ts.contains(TripleView { subject: v, predicate: rdf_type(), object: cl }) ==> {
            let f = one_value(PropertyConstraintV::Class(cl), v, focus, ts)[0];
            &&& f.component == "http://www.w3.org/ns/shacl#class"@
            &&& f.value == Some(v)
            &&& f.focus == Some(focus)
        },
        one_value(PropertyConstraintV::Datatype(d), "\""@ + x + "\"^^<"@ + d + ">"@, focus, ts).len() == 0,
{
    if ts.contains(TripleView { subject: v, predicate: rdf_type(), object: cl }) {
        let k = choose|k: int| 0 <= k < ts.len() && ts[k] == TripleView { subject: v, predicate: rdf_type(), object: cl };
        assert(typed(ts, v, cl));
    }
    if typed(ts, v, cl) {
        let k = choose|k: int| 0 <= k < ts.len() && #[trigger] ts[k] == TripleView { subject: v, predicate: rdf_type(), object: cl };
        assert(ts.contains(ts[k]));
    }
    let lit = "\""@ + x + "\"^^<"@ + d + ">"@;
    let suf = "\"^^<"@ + d + ">"@;
    assert(lit =~= "\""@ + x + suf);
    assert(lit.subrange(0, 1) =~= "\""@) by {
        reveal_strlit("\"");
    }
    assert(lit.subrange(lit.len() - suf.len(), lit.len() as int) =~= suf);
    reveal_strlit("\"");
    assert(has_prefix(lit, "\""@));
    assert(has_suffix(lit, suf));
    assert(datatype_ok(lit, d));
}

/// A focus node with fewer values than a minimum count `n` gives exactly
/// one sh:minCount violation for that node, carrying no value; one with at
/// least `n` values gives none.
pub proof fn law_min_count_finding(n: u64, vals: Seq<Seq<char>>, focus: Seq<char>, ts: Seq<TripleView>)
    ensures
        constraint_for_values(PropertyConstraintV::MinCount(n), vals, focus, ts).len() == (if vals.len() < n { 1int } else { 0int }),
        vals.len() < n ==> {
            let f = constraint_for_values(PropertyConstraintV::MinCount(n), vals, focus, ts)[0];
            &&& f.component == "http://www.w3.org/ns/shacl#minCount"@
            &&& f.focus == Some(focus)
            &&& f.value is None
            &&& f.severity == ViolationLevel::Violation
        },
{
}

/// Over the values of a focus node, the sh:minLength findings are exactly
/// one per value with fewer UTF-8 bytes than the minimum, in the order of
/// the values: each finding names a too short value, and each too short
/// value is named by a finding.
pub proof fn law_min_length_over_values(n: u64, vals: Seq<Seq<char>>, focus: Seq<char>, ts: Seq<TripleView>)
    ensures
        forall|k: int| 0 <= k < constraint_for_values(PropertyConstraintV::MinLength(n), vals, focus, ts).len() ==> {
            let f = #[trigger] constraint_for_values(PropertyConstraintV::MinLength(n), vals, focus, ts)[k];
            &&& f.component == "http://www.w3.org/ns/shacl#minLength"@
            &&& f.value matches Some(v) && vals.contains(v) && utf8_len(v) < n
        },
        forall|k: int| 0 <= k < vals.len() && utf8_len(#[trigger] vals[k]) < n ==>
            exists|j: int| 0 <= j < constraint_for_values(PropertyConstraintV::MinLength(n), vals, focus, ts).len()
                && constraint_for_values(PropertyConstraintV::MinLength(n), vals, focus, ts)[j].value == Some(vals[k]),
    decreases vals.len(),
{
    let c = PropertyConstraintV::MinLength(n);
    if vals.len() > 0 {
        let p = vals.drop_last();
        law_min_length_over_values(n, p, focus, ts);
        let prev = values_results(c, p, focus, ts);
        let last = one_value(c, vals.last(), focus, ts);
        let all = values_results(c, vals, focus, ts);
        assert(all == prev + last);
        law_length_findings(n, vals.last(), focus, ts);
        assert forall|k: int| 0 <= k < all.len() implies {
            let f = #[trigger] all[k];
            &&& f.component == "http://www.w3.org/ns/shacl#minLength"@
            &&& f.value matches Some(v) && vals.contains(v) && utf8_len(v) < n
        } by {
            if k < prev.len() {
                assert(all[k] == prev[k]);
                assert(constraint_for_values(c, p, focus, ts)[k] == prev[k]);
                let v = prev[k].value->0;
                assert(p.contains(v));
                let w = choose|w: int| 0 <= w < p.len() && p[w] == v;
                assert(vals[w] == v);
            } else {
                assert(all[k] == last[k - prev.len()]);
                assert(vals[vals.len() - 1] == vals.last());
            }
        }
        assert forall|k: int| 0 <= k < vals.len() && utf8_len(#[trigger] vals[k]) < n implies
            exists|j: int| 0 <= j < all.len() && all[j].value == Some(vals[k]) by {
            if k < vals.len() - 1 {
                assert(p[k] == vals[k]);
                let j = choose|j: int| 0 <= j < constraint_for_values(c, p, focus, ts).len()
                    && constraint_for_values(c, p, focus, ts)[j].value == Some(p[k]);
                assert(all[j] == prev[j]);
            } else {
                assert(all[prev.len() as int] == last[0]);
            }
        }
    }
}

/// Whether `x` is stated to be of type `c`.
fn is_typed(triples: &Vec<Triple>, x: &String, c: &String) -> (r: bool)
    ensures
        r == typed(triples_view(triples@), x@, c@),
{
    let ghost ts = triples_view(triples@);
    let rt = "http://www.w3.org/1999/02/22-rdf-syntax-ns#type".to_string();
    let mut k: usize = 0;
    while k < triples.len()
        invariant
            k <= triples@.len(),
            ts == triples_view(triples@),
            rt@ == rdf_type(),
            forall|q: int| 0 <= q < k ==> ts[q] != (TripleView { subject: x@, predicate: rdf_type(), object: c@ }),
        decreases triples.len() - k,
    {
        let t = &triples[k];
        proof {
            assert(ts[k as int] == t@);
        }
        if t.subject == *x && t.predicate == rt && t.object == *c {
            return true;
        }
        k += 1;
    }
    false
}

/// Whether some triple of `node` has object `v`.
fn has_value_in(triples: &Vec<Triple>, node: &String, v: &String) -> (r: bool)
    ensures
        r == has_value_triple(triples_view(triples@), node@, v@),
{
    let ghost ts = triples_view(triples@);
    let mut k: usize = 0;
    while k < triples.len()
        invariant
            k <= triples@.len(),
            ts == triples_view(triples@),
            forall|q: int| 0 <= q < k ==> !(ts[q].subject == node@ && ts[q].object == v@),
        decreases triples.len() - k,
    {
        let t = &triples[k];
        proof {
            assert(ts[k as int] == t@);
        }
        if t.subject == *node && t.object == *v {
            proof {
                assert(ts[k as int].subject == node@ && ts[k as int].object == v@);
            }
            return true;
        }
        k += 1;
    }
    proof {
        assert forall|q: int| !(0 <= q < ts.len() && #[trigger] ts[q].subject == node@ && ts[q].object == v@) by {}
    }
    false
}

/// The objects of the `pred` triples of `node`, in store order.
fn objects_of_exec(triples: &Vec<Triple>, node: &String, pred: &String) -> (r: Vec<String>)
    ensures
        r@.map_values(|s: String| s@) == objects_of(triples_view(triples@), node@, pred@),
{
    let ghost ts = triples_view(triples@);
    let mut out: Vec<String> = Vec::new();
    proof {
        assert(out@.map_values(|s: String| s@) =~= objects_of(ts.take(0), node@, pred@));
    }
    let mut k: usize = 0;
    while k < triples.len()
        invariant
            k <= triples@.len(),
            ts == triples_view(triples@),
            out@.map_values(|s: String| s@) == objects_of(ts.take(k as int), node@, pred@),
        decreases triples.len() - k,
    {
        let t = &triples[k];
        let ghost before = out@;
        proof {
            assert(ts.take(k + 1).drop_last() =~= ts.take(k as int));
            assert(ts.take(k + 1).last() == t@);
        }
        if t.subject == *node && t.predicate == *pred {
            out.push(t.object.clone());
            proof {
                assert(out@.map_values(|s: String| s@) =~= before.map_values(|s: String| s@).push(t.object@));
            }
        }
        k += 1;
    }
    proof {
        assert(ts.take(ts.len() as int) =~= ts);
    }
    out
}

/// Append `r` to the findings.
fn push_finding(out: &mut Vec<ValidationResult>, r: ValidationResult)
    ensures
        results_view(final(out)@) == results_view(old(out)@).push(result_view(r)),
{
    out.push(r);
    proof {
        assert(results_view(final(out)@) =~= results_view(old(out)@).push(result_view(r)));
    }
}

/// Append the findings for one value under a value constraint.
fn one_value_exec(c: &PropertyConstraint, v: &String, focus: &String, triples: &Vec<Triple>, out: &mut Vec<ValidationResult>)
    ensures
        results_view(final(out)@) == results_view(old(out)@) + one_value(property_constraint_view(*c), v@, focus@, triples_view(triples@)),
{
    let ghost before = results_view(out@);
    let ghost ts = triples_view(triples@);
    match c {
        PropertyConstraint::Class(cl) => {
            if !is_typed(triples, v, cl) {
                let m = join("Value ", v.as_str()).concat(" is not of class ").concat(cl.as_str());
                push_finding(out, make_finding(Some(focus.clone()), Some("http://example.org/manager"), Some(v.clone()), "http://www.w3.org/ns/shacl#class", m));
            }
        },
        PropertyConstraint::Datatype(d) => {
            if !datatype_matches(v.as_str(), d.as_str()) {
                let m = join("Value '", v.as_str()).concat("' does not match datatype ").concat(d.as_str());
                push_finding(out, make_finding(Some(focus.clone()), Some("http://example.org/age"), Some(v.clone()), "http://www.w3.org/ns/shacl#datatype", m));
            }
        },
        PropertyConstraint::MinLength(n) => {
            let len = byte_len(v.as_str());
            if len < *n as u128 {
                let m = join("Value '", v.as_str()).concat("' has length ").concat(decimal_wide(len).as_str())
                    .concat(", minimum is ").concat(decimal(*n).as_str());
                push_finding(out, make_finding(Some(focus.clone()), Some("http://example.org/property"), Some(v.clone()), "http://www.w3.org/ns/shacl#minLength", m));
            }
        },
        PropertyConstraint::MaxLength(n) => {
            let len = byte_len(v.as_str());
            if len > *n as u128 {
                let m = join("Value '", v.as_str()).concat("' has length ").concat(decimal_wide(len).as_str())
                    .concat(", maximum is ").concat(decimal(*n).as_str());
                push_finding(out, make_finding(Some(focus.clone()), Some("http://example.org/property"), Some(v.clone()), "http://www.w3.org/ns/shacl#maxLength", m));
            }
        },
        PropertyConstraint::Pattern { pattern, flags: _ } => {
            match compile_pattern(pattern.as_str()) {
                Some(re) => {
                    if !pattern_is_match(&re, v.as_str()) {
                        let m = join("Value '", v.as_str()).concat("' does not match pattern '").concat(pattern.as_str()).concat("'");
                        push_finding(out, make_finding(Some(focus.clone()), Some("http://example.org/property"), Some(v.clone()), "http://www.w3.org/ns/shacl#pattern", m));
                    }
                },
                None => {},
            }
        },
        _ => {},
    }
    proof {
        assert(results_view(out@) =~= before + one_value(property_constraint_view(*c), v@, focus@, ts));
    }
}

/// Append the findings of a property constraint on the values of a focus
/// node.
fn constraint_for_values_exec(c: &PropertyConstraint, vals: &Vec<String>, focus: &String, triples: &Vec<Triple>, out: &mut Vec<ValidationResult>)
    ensures
        results_view(final(out)@) == results_view(old(out)@)
            + constraint_for_values(property_constraint_view(*c), vals@.map_values(|s: String| s@), focus@, triples_view(triples@)),
{
    let ghost vv = vals@.map_values(|s: String| s@);
    let ghost ts = triples_view(triples@);
    let ghost cv = property_constraint_view(*c);
    let ghost before = results_view(out@);
    match c {
        PropertyConstraint::MinCount(n) => {
            if usize_to_u64(vals.len()) < *n {
                let m = join("Expected at least ", decimal(*n).as_str()).concat(" values, found ").concat(decimal(usize_to_u64(vals.len())).as_str());
                push_finding(out, make_finding(Some(focus.clone()), Some("http://example.org/manager"), None, "http://www.w3.org/ns/shacl#minCount", m));
            }
            proof {
                assert(results_view(out@) =~= before + constraint_for_values(cv, vv, focus@, ts));
            }
            return;
        },
        _ => {},
    }
    proof {
        assert(constraint_for_values(cv, vv, focus@, ts) == values_results(cv, vv, focus@, ts));
        assert(before + values_results(cv, vv.take(0), focus@, ts) =~= before);
    }
    let mut k: usize = 0;
    while k < vals.len()
        invariant
            k <= vals@.len(),
            vv == vals@.map_values(|s: String| s@),
            ts == triples_view(triples@),
            cv == property_constraint_view(*c),
            results_view(out@) == before + values_results(cv, vv.take(k as int), focus@, ts),
        decreases vals.len() - k,
    {
        proof {
            assert(vv.take(k + 1).drop_last() =~= vv.take(k as int));
            assert(vv.take(k + 1).last() == vals@[k as int]@);
        }
        one_value_exec(c, &vals[k], focus, triples, out);
        proof {
            assert(results_view(out@) =~= before + values_results(cv, vv.take(k + 1), focus@, ts));
        }
        k += 1;
    }
    proof {
        assert(vv.take(vv.len() as int) =~= vv);
    }
}

/// The findings of each constraint in turn on the values of a focus node.
pub open spec fn constraints_for_values(cs: Seq<PropertyConstraintV>, vals: Seq<Seq<char>>, focus: Seq<char>, ts: Seq<TripleView>) -> Seq<ResultV>
    decreases cs.len(),
{
    if cs.len() == 0 {
        Seq::empty()
    } else {
        constraints_for_values(cs.drop_last(), vals, focus, ts) + constraint_for_values(cs.last(), vals, focus, ts)
    }
}

/// The findings of a property shape for a focus node: the values along a
/// one-step path checked against its constraints; `None` for other paths.
pub open spec fn property_shape_for_node(path: PathV, cs: Seq<PropertyConstraintV>, node: Seq<char>, ts: Seq<TripleView>) -> Option<Seq<ResultV>> {
    match path {
        PathV::Predicate(p) => Some(constraints_for_values(cs, objects_of(ts, node, p), node, ts)),
        PathV::Complex => None,
    }
}

/// The findings of a node constraint for a focus node.
pub open spec fn node_constraint_results(c: NodeConstraintV, node: Seq<char>, ts: Seq<TripleView>) -> Seq<ResultV> {
    match c {
        NodeConstraintV::Class(cl) => if typed(ts, node, cl) { Seq::empty() } else {
            seq![finding(Some(node), None, None, "http://www.w3.org/ns/shacl#class"@, "Node "@ + node + " is not of class "@ + cl)]
        },
        NodeConstraintV::HasValue(v) => if has_value_triple(ts, node, v) { Seq::empty() } else {
            seq![finding(Some(node), None, None, "http://www.w3.org/ns/shacl#hasValue"@, "Node "@ + node + " does not have required value "@ + v)]
        },
        _ => Seq::empty(),
    }
}

/// The findings of each node constraint in turn for a focus node.
pub open spec fn node_constraints_results(cs: Seq<NodeConstraintV>, node: Seq<char>, ts: Seq<TripleView>) -> Seq<ResultV>
    decreases cs.len(),
{
    if cs.len() == 0 {
        Seq::empty()
    } else {
        node_constraints_results(cs.drop_last(), node, ts) + node_constraint_results(cs.last(), node, ts)
    }
}

/// The findings of the property shapes listed in `ids` for a focus node:
/// ids without a property shape are passed over; `None` where a property
/// shape's path is not one step.
pub open spec fn props_for_node(ids: Seq<Seq<char>>, g: Seq<(Seq<char>, ShapeV)>, node: Seq<char>, ts: Seq<TripleView>) -> Option<Seq<ResultV>>
    decreases ids.len(),
{
    if ids.len() == 0 {
        Some(Seq::empty())
    } else {
        match props_for_node(ids.drop_last(), g, node, ts) {
            None => None,
            Some(rs) => match first_index(g, ids.last()) {
                Some(k) => match g[k].1 {
                    ShapeV::Property { id, path, constraints } => match property_shape_for_node(path, constraints, node, ts) {
                        Some(x) => Some(rs + x),
                        None => None,
                    },
                    _ => Some(rs),
                },
                None => Some(rs),
            },
        }
    }
}

/// The findings of a node shape for its focus nodes in turn.
pub open spec fn nodes_results(nodes: Seq<Seq<char>>, cs: Seq<NodeConstraintV>, ids: Seq<Seq<char>>, g: Seq<(Seq<char>, ShapeV)>, ts: Seq<TripleView>) -> Option<Seq<ResultV>>
    decreases nodes.len(),
{
    if nodes.len() == 0 {
        Some(Seq::empty())
    } else {
        match nodes_results(nodes.drop_last(), cs, ids, g, ts) {
            None => None,
            Some(rs) => match props_for_node(ids, g, nodes.last(), ts) {
                Some(x) => Some(rs + node_constraints_results(cs, nodes.last(), ts) + x),
                None => None,
            },
        }
    }
}

/// Subjects stated of type `key` (`kind` 0), subjects of `key` triples
/// (1), or objects of `key` triples (2), in store order.
pub open spec fn picked(ts: Seq<TripleView>, kind: u8, key: Seq<char>) -> Seq<Seq<char>>
    decreases ts.len(),
{
    if ts.len() == 0 {
        Seq::empty()
    } else {
        let r = picked(ts.drop_last(), kind, key);
        let t = ts.last();
        if kind == 0 {
            if t.predicate == rdf_type() && t.object == key { r.push(t.subject) } else { r }
        } else if kind == 1 {
            if t.predicate == key { r.push(t.subject) } else { r }
        } else {
            if t.predicate == key { r.push(t.object) } else { r }
        }
    }
}

/// The focus nodes of the targets, each once, in the order met.
pub open spec fn target_nodes(targets: Seq<TargetV>, ts: Seq<TripleView>) -> Seq<Seq<char>>
    decreases targets.len(),
{
    if targets.len() == 0 {
        Seq::empty()
    } else {
        let acc = target_nodes(targets.drop_last(), ts);
        match targets.last() {
            TargetV::Class(c) => crate::nodeset::seq_extend(acc, picked(ts, 0, c)),
            TargetV::Node(n) => crate::nodeset::seq_insert(acc, n),
            TargetV::SubjectsOf(p) => crate::nodeset::seq_extend(acc, picked(ts, 1, p)),
            TargetV::ObjectsOf(p) => crate::nodeset::seq_extend(acc, picked(ts, 2, p)),
        }
    }
}

/// The findings of a property constraint checked on its own, against the
/// objects of all triples: too few or too many values, or a required value
/// missing.
pub open spec fn standalone_one(c: PropertyConstraintV, objs: Seq<Seq<char>>) -> Seq<ResultV> {
    match c {
        PropertyConstraintV::MinCount(n) => if objs.len() < n {
            seq![finding(None, None, None, "http://www.w3.org/ns/shacl#minCount"@,
                "Expected at least "@ + decimal_spec(n as nat) + " values, found "@ + decimal_spec(objs.len()))]
        } else { Seq::empty() },
        PropertyConstraintV::MaxCount(n) => if objs.len() > n {
            seq![finding(None, None, None, "http://www.w3.org/ns/shacl#maxCount"@,
                "Expected at most "@ + decimal_spec(n as nat) + " values, found "@ + decimal_spec(objs.len()))]
        } else { Seq::empty() },
        PropertyConstraintV::HasValue(v) => if objs.contains(v) { Seq::empty() } else {
            seq![finding(None, None, None, "http://www.w3.org/ns/shacl#hasValue"@, "Required value "@ + v + " not found"@)]
        },
        _ => Seq::empty(),
    }
}

/// `standalone_one` for each constraint in turn.
pub open spec fn standalone_results(cs: Seq<PropertyConstraintV>, objs: Seq<Seq<char>>) -> Seq<ResultV>
    decreases cs.len(),
{
    if cs.len() == 0 {
        Seq::empty()
    } else {
        standalone_results(cs.drop_last(), objs) + standalone_one(cs.last(), objs)
    }
}

/// The objects of all triples, in store order.
pub open spec fn all_objects(ts: Seq<TripleView>) -> Seq<Seq<char>> {
    ts.map_values(|t: TripleView| t.object)
}

/// The findings of one shape of the graph.
pub open spec fn shape_results(s: ShapeV, g: Seq<(Seq<char>, ShapeV)>, ts: Seq<TripleView>) -> Option<Seq<ResultV>> {
    match s {
        ShapeV::Node { id, targets, constraints, property_shapes } =>
            nodes_results(target_nodes(targets, ts), constraints, property_shapes, g, ts),
        ShapeV::Property { id, path, constraints } => Some(standalone_results(constraints, all_objects(ts))),
    }
}

/// The findings of the first `k` shapes, and whether checking stopped
/// early: with `fail_fast` it stops after the first shape that leaves
/// findings. `None` where a complex path was met.
pub open spec fn validate_upto(g: Seq<(Seq<char>, ShapeV)>, ts: Seq<TripleView>, fail_fast: bool, k: int) -> Option<(Seq<ResultV>, bool)>
    decreases k,
{
    if k <= 0 {
        Some((Seq::empty(), false))
    } else {
        match validate_upto(g, ts, fail_fast, k - 1) {
            None => None,
            Some((rs, true)) => Some((rs, true)),
            Some((rs, false)) => match shape_results(g[k - 1].1, g, ts) {
                None => None,
                Some(x) => Some((rs + x, fail_fast && (rs + x).len() > 0)),
            },
        }
    }
}

/// The content of a node shape's constraints.
pub open spec fn ncs_view(v: Seq<NodeConstraint>) -> Seq<NodeConstraintV> {
    v.map_values(|c: NodeConstraint| node_constraint_view(c))
}

/// The content of a property shape's constraints.
pub open spec fn pcs_view(v: Seq<PropertyConstraint>) -> Seq<PropertyConstraintV> {
    v.map_values(|c: PropertyConstraint| property_constraint_view(c))
}

/// Append the findings of a property shape for a focus node; `false` where
/// its path is not one step.
fn property_shape_for_node_exec(shape: &PropertyShape, node: &String, triples: &Vec<Triple>, out: &mut Vec<ValidationResult>) -> (r: bool)
    ensures
        match property_shape_for_node(path_view(shape.path), pcs_view(shape.constraints@), node@, triples_view(triples@)) {
            Some(x) => r && results_view(final(out)@) == results_view(old(out)@) + x,
            None => !r,
        },
{
    let pred = match &shape.path {
        PropertyPath::Predicate(p) => p,
        _ => { return false; },
    };
    let values = objects_of_exec(triples, node, pred);
    let ghost vv = values@.map_values(|s: String| s@);
    let ghost ts = triples_view(triples@);
    let ghost cs = pcs_view(shape.constraints@);
    let ghost before = results_view(out@);
    proof {
        assert(before + constraints_for_values(cs.take(0), vv, node@, ts) =~= before);
    }
    let mut k: usize = 0;
    while k < shape.constraints.len()
        invariant
            k <= shape.constraints@.len(),
            cs == pcs_view(shape.constraints@),
            vv == values@.map_values(|s: String| s@),
            ts == triples_view(triples@),
            results_view(out@) == before + constraints_for_values(cs.take(k as int), vv, node@, ts),
        decreases shape.constraints.len() - k,
    {
        proof {
            assert(cs.take(k + 1).drop_last() =~= cs.take(k as int));
            assert(cs.take(k + 1).last() == property_constraint_view(shape.constraints@[k as int]));
        }
        constraint_for_values_exec(&shape.constraints[k], &values, node, triples, out);
        proof {
            assert(results_view(out@) =~= before + constraints_for_values(cs.take(k + 1), vv, node@, ts));
        }
        k += 1;
    }
    proof {
        assert(cs.take(cs.len() as int) =~= cs);
    }
    true
}

/// Append the findings of a node constraint for a focus node.
fn node_constraint_exec(c: &NodeConstraint, node: &String, triples: &Vec<Triple>, out: &mut Vec<ValidationResult>)
    ensures
        results_view(final(out)@) == results_view(old(out)@) + node_constraint_results(node_constraint_view(*c), node@, triples_view(triples@)),
{
    let ghost before = results_view(out@);
    match c {
        NodeConstraint::Class(cl) => {
            if !is_typed(triples, node, cl) {
                let m = join("Node ", node.as_str()).concat(" is not of class ").concat(cl.as_str());
                push_finding(out, make_finding(Some(node.clone()), None, None, "http://www.w3.org/ns/shacl#class", m));
            }
        },
        NodeConstraint::HasValue(v) => {
            if !has_value_in(triples, node, v) {
                let m = join("Node ", node.as_str()).concat(" does not have required value ").concat(v.as_str());
                push_finding(out, make_finding(Some(node.clone()), None, None, "http://www.w3.org/ns/shacl#hasValue", m));
            }
        },
        _ => {},
    }
    proof {
        assert(results_view(out@) =~= before + node_constraint_results(node_constraint_view(*c), node@, triples_view(triples@)));
    }
}

/// Append the findings of a node shape for one focus node; `false` where a
/// property shape with a complex path was met.
fn node_results_exec(shape: &NodeShape, graph: &ShapesGraph, node: &String, triples: &Vec<Triple>, out: &mut Vec<ValidationResult>) -> (r: bool)
    ensures
        match props_for_node(super::loader::strings_view(shape.property_shapes@), graph.shapes_view(), node@, triples_view(triples@)) {
            Some(x) => r && results_view(final(out)@) == results_view(old(out)@)
                + node_constraints_results(ncs_view(shape.constraints@), node@, triples_view(triples@)) + x,
            None => !r,
        },
{
    let ghost ts = triples_view(triples@);
    let ghost cs = ncs_view(shape.constraints@);
    let ghost ids = super::loader::strings_view(shape.property_shapes@);
    let ghost g = graph.shapes_view();
    let ghost before = results_view(out@);
    proof {
        assert(before + node_constraints_results(cs.take(0), node@, ts) =~= before);
    }
    let mut k: usize = 0;
    while k < shape.constraints.len()
        invariant
            k <= shape.constraints@.len(),
            cs == ncs_view(shape.constraints@),
            ts == triples_view(triples@),
            results_view(out@) == before + node_constraints_results(cs.take(k as int), node@, ts),
        decreases shape.constraints.len() - k,
    {
        proof {
            assert(cs.take(k + 1).drop_last() =~= cs.take(k as int));
            assert(cs.take(k + 1).last() == node_constraint_view(shape.constraints@[k as int]));
        }
        node_constraint_exec(&shape.constraints[k], node, triples, out);
        proof {
            assert(results_view(out@) =~= before + node_constraints_results(cs.take(k + 1), node@, ts));
        }
        k += 1;
    }
    proof {
        assert(cs.take(cs.len() as int) =~= cs);
    }
    let ghost mid = results_view(out@);
    proof {
        assert(ids.take(0) =~= Seq::<Seq<char>>::empty());
        assert(mid + Seq::<ResultV>::empty() =~= mid);
    }
    let mut q: usize = 0;
    while q < shape.property_shapes.len()
        invariant
            q <= shape.property_shapes@.len(),
            ids == super::loader::strings_view(shape.property_shapes@),
            g == graph.shapes_view(),
            ts == triples_view(triples@),
            props_for_node(ids.take(q as int), g, node@, ts) matches Some(x) && results_view(out@) == mid + x,
        decreases shape.property_shapes.len() - q,
    {
        let ghost prev = props_for_node(ids.take(q as int), g, node@, ts)->Some_0;
        proof {
            assert(ids.take(q + 1).drop_last() =~= ids.take(q as int));
            assert(ids.take(q + 1).last() == shape.property_shapes@[q as int]@);
        }
        match graph.get_shape(shape.property_shapes[q].as_str()) {
            Some(found) => {
                match found {
                    Shape::Property(ps) => {
                        let ghost o0 = results_view(out@);
                        let ok = property_shape_for_node_exec(ps, node, triples, out);
                        if !ok {
                            proof {
                                assert(props_for_node(ids.take(q + 1), g, node@, ts) is None);
                                lemma_props_none(ids, q + 1, g, node@, ts);
                            }
                            return false;
                        }
                        proof {
                            let x = property_shape_for_node(path_view(ps.path), pcs_view(ps.constraints@), node@, ts)->Some_0;
                            assert(results_view(out@) =~= mid + (prev + x));
                        }
                    },
                    Shape::Node(_) => {},
                }
            },
            None => {},
        }
        q += 1;
    }
    proof {
        assert(ids.take(ids.len() as int) =~= ids);
        let x = props_for_node(ids, g, node@, ts)->Some_0;
        assert(results_view(out@) =~= before + node_constraints_results(cs, node@, ts) + x);
    }
    true
}

/// Once the property shapes of a prefix meet a complex path, so do all.
proof fn lemma_props_none(ids: Seq<Seq<char>>, q: int, g: Seq<(Seq<char>, ShapeV)>, node: Seq<char>, ts: Seq<TripleView>)
    requires
        0 <= q <= ids.len(),
        props_for_node(ids.take(q), g, node, ts) is None,
    ensures
        props_for_node(ids, g, node, ts) is None,
    decreases ids.len(),
{
    if q == ids.len() {
        assert(ids.take(q) =~= ids);
    } else {
        assert(ids.drop_last().take(q) =~= ids.take(q));
        lemma_props_none(ids.drop_last(), q, g, node, ts);
    }
}

/// Subjects stated of type `key` (`kind` 0), subjects of `key` triples
/// (1), or objects of `key` triples (2), in store order.
fn picked_exec(triples: &Vec<Triple>, kind: u8, key: &String) -> (r: Vec<String>)
    ensures
        r@.map_values(|s: String| s@) == picked(triples_view(triples@), kind, key@),
{
    let ghost ts = triples_view(triples@);
    let rt = "http://www.w3.org/1999/02/22-rdf-syntax-ns#type".to_string();
    let mut out: Vec<String> = Vec::new();
    proof {
        assert(out@.map_values(|s: String| s@) =~= picked(ts.take(0), kind, key@));
    }
    let mut k: usize = 0;
    while k < triples.len()
        invariant
            k <= triples@.len(),
            ts == triples_view(triples@),
            rt@ == rdf_type(),
            out@.map_values(|s: String| s@) == picked(ts.take(k as int), kind, key@),
        decreases triples.len() - k,
    {
        let t = &triples[k];
        let ghost before = out@;
        proof {
            assert(ts.take(k + 1).drop_last() =~= ts.take(k as int));
            assert(ts.take(k + 1).last() == t@);
        }
        if kind == 0 {
            if t.predicate == rt && t.object == *key {
                out.push(t.subject.clone());
            }
        } else if kind == 1 {
            if t.predicate == *key {
                out.push(t.subject.clone());
            }
        } else {
            if t.predicate == *key {
                out.push(t.object.clone());
            }
        }
        proof {
            assert(out@.map_values(|s: String| s@) =~= picked(ts.take(k + 1), kind, key@));
        }
        k += 1;
    }
    proof {
        assert(ts.take(ts.len() as int) =~= ts);
    }
    out
}

/// The focus nodes of the targets, each once, in the order met.
fn target_nodes_exec(targets: &Vec<Target>, triples: &Vec<Triple>) -> (r: Vec<String>)
    ensures
        crate::closure::node_views(r@) == target_nodes(targets@.map_values(|t: Target| target_view(t)), triples_view(triples@)),
{
    let ghost tv = targets@.map_values(|t: Target| target_view(t));
    let ghost ts = triples_view(triples@);
    let mut out: Vec<String> = Vec::new();
    proof {
        assert(crate::closure::node_views(out@) =~= target_nodes(tv.take(0), ts));
    }
    let mut k: usize = 0;
    while k < targets.len()
        invariant
            k <= targets@.len(),
            tv == targets@.map_values(|t: Target| target_view(t)),
            ts == triples_view(triples@),
            crate::closure::node_views(out@) == target_nodes(tv.take(k as int), ts),
        decreases targets.len() - k,
    {
        proof {
            assert(tv.take(k + 1).drop_last() =~= tv.take(k as int));
            assert(tv.take(k + 1).last() == target_view(targets@[k as int]));
        }
        match &targets[k] {
            Target::Class(c) => {
                let found = picked_exec(triples, 0, c);
                proof { assert(crate::closure::node_views(found@) =~= found@.map_values(|s: String| s@)); }
                crate::nodeset::extend_nodes(&mut out, &found);
            },
            Target::Node(n) => {
                crate::nodeset::insert_node(&mut out, n.clone());
            },
            Target::SubjectsOf(p) => {
                let found = picked_exec(triples, 1, p);
                proof { assert(crate::closure::node_views(found@) =~= found@.map_values(|s: String| s@)); }
                crate::nodeset::extend_nodes(&mut out, &found);
            },
            Target::ObjectsOf(p) => {
                let found = picked_exec(triples, 2, p);
                proof { assert(crate::closure::node_views(found@) =~= found@.map_values(|s: String| s@)); }
                crate::nodeset::extend_nodes(&mut out, &found);
            },
        }
        k += 1;
    }
    proof {
        assert(tv.take(tv.len() as int) =~= tv);
    }
    out
}

/// Once the focus nodes of a prefix meet a complex path, so do all.
proof fn lemma_nodes_none(nodes: Seq<Seq<char>>, q: int, cs: Seq<NodeConstraintV>, ids: Seq<Seq<char>>, g: Seq<(Seq<char>, ShapeV)>, ts: Seq<TripleView>)
    requires
        0 <= q <= nodes.len(),
        nodes_results(nodes.take(q), cs, ids, g, ts) is None,
    ensures
        nodes_results(nodes, cs, ids, g, ts) is None,
    decreases nodes.len(),
{
    if q == nodes.len() {
        assert(nodes.take(q) =~= nodes);
    } else {
        assert(nodes.drop_last().take(q) =~= nodes.take(q));
        lemma_nodes_none(nodes.drop_last(), q, cs, ids, g, ts);
    }
}

/// Append the findings of a node shape for all its focus nodes; `false`
/// where a complex path was met.
fn node_shape_exec(shape: &NodeShape, graph: &ShapesGraph, triples: &Vec<Triple>, out: &mut Vec<ValidationResult>) -> (r: bool)
    ensures
        match shape_results(shape_view(Shape::Node(*shape)), graph.shapes_view(), triples_view(triples@)) {
            Some(x) => r && results_view(final(out)@) == results_view(old(out)@) + x,
            None => !r,
        },
{
    let ghost ts = triples_view(triples@);
    let ghost g = graph.shapes_view();
    let ghost cs = ncs_view(shape.constraints@);
    let ghost ids = super::loader::strings_view(shape.property_shapes@);
    let nodes = target_nodes_exec(&shape.targets, triples);
    let ghost nv = crate::closure::node_views(nodes@);
    let ghost before = results_view(out@);
    proof {
        assert(shape_results(shape_view(Shape::Node(*shape)), g, ts) == nodes_results(nv, cs, ids, g, ts));
        assert(nv.take(0) =~= Seq::<Seq<char>>::empty());
        assert(before + Seq::<ResultV>::empty() =~= before);
    }
    let mut k: usize = 0;
    while k < nodes.len()
        invariant
            k <= nodes@.len(),
            nv == crate::closure::node_views(nodes@),
            ts == triples_view(triples@),
            g == graph.shapes_view(),
            cs == ncs_view(shape.constraints@),
            ids == super::loader::strings_view(shape.property_shapes@),
            nodes_results(nv.take(k as int), cs, ids, g, ts) matches Some(x) && results_view(out@) == before + x,
            shape_results(shape_view(Shape::Node(*shape)), g, ts) == nodes_results(nv, cs, ids, g, ts),
        decreases nodes.len() - k,
    {
        let ghost prev = nodes_results(nv.take(k as int), cs, ids, g, ts)->Some_0;
        proof {
            assert(nv.take(k + 1).drop_last() =~= nv.take(k as int));
            assert(nv.take(k + 1).last() == nodes@[k as int]@);
        }
        let ghost o0 = results_view(out@);
        let ok = node_results_exec(shape, graph, &nodes[k], triples, out);
        if !ok {
            proof {
                assert(nodes_results(nv.take(k + 1), cs, ids, g, ts) is None);
                lemma_nodes_none(nv, k + 1, cs, ids, g, ts);
            }
            return false;
        }
        proof {
            let x = props_for_node(ids, g, nodes@[k as int]@, ts)->Some_0;
            assert(results_view(out@) =~= before + (prev + node_constraints_results(cs, nodes@[k as int]@, ts) + x));
        }
        k += 1;
    }
    proof {
        assert(nv.take(nv.len() as int) =~= nv);
    }
    true
}

/// Append the findings of a property shape checked on its own.
fn standalone_exec(shape: &PropertyShape, triples: &Vec<Triple>, out: &mut Vec<ValidationResult>)
    ensures
        results_view(final(out)@) == results_view(old(out)@) + standalone_results(pcs_view(shape.constraints@), all_objects(triples_view(triples@))),
{
    let ghost ts = triples_view(triples@);
    let ghost objs = all_objects(ts);
    let ghost cs = pcs_view(shape.constraints@);
    let mut values: Vec<String> = Vec::new();
    let mut j: usize = 0;
    while j < triples.len()
        invariant
            j <= triples@.len(),
            ts == triples_view(triples@),
            values@.map_values(|s: String| s@) == all_objects(ts.take(j as int)),
        decreases triples.len() - j,
    {
        let ghost before = values@;
        values.push(triples[j].object.clone());
        proof {
            assert(ts.take(j + 1) =~= ts.take(j as int).push(triples@[j as int]@));
            assert(values@.map_values(|s: String| s@) =~= before.map_values(|s: String| s@).push(triples@[j as int].object@));
            assert(all_objects(ts.take(j + 1)) =~= all_objects(ts.take(j as int)).push(triples@[j as int].object@));
        }
        j += 1;
    }
    proof {
        assert(ts.take(ts.len() as int) =~= ts);
    }
    let ghost vv = values@.map_values(|s: String| s@);
    let n = values.len();
    let ghost before = results_view(out@);
    proof {
        assert(before + standalone_results(cs.take(0), objs) =~= before);
    }
    let mut k: usize = 0;
    while k < shape.constraints.len()
        invariant
            k <= shape.constraints@.len(),
            cs == pcs_view(shape.constraints@),
            vv == values@.map_values(|s: String| s@),
            vv == objs,
            n == values@.len(),
            results_view(out@) == before + standalone_results(cs.take(k as int), objs),
        decreases shape.constraints.len() - k,
    {
        proof {
            assert(cs.take(k + 1).drop_last() =~= cs.take(k as int));
            assert(cs.take(k + 1).last() == property_constraint_view(shape.constraints@[k as int]));
        }
        let ghost o0 = results_view(out@);
        match &shape.constraints[k] {
            PropertyConstraint::MinCount(m) => {
                if usize_to_u64(n) < *m {
                    let msg = join("Expected at least ", decimal(*m).as_str()).concat(" values, found ").concat(decimal(usize_to_u64(n)).as_str());
                    push_finding(out, make_finding(None, None, None, "http://www.w3.org/ns/shacl#minCount", msg));
                }
            },
            PropertyConstraint::MaxCount(m) => {
                if usize_to_u64(n) > *m {
                    let msg = join("Expected at most ", decimal(*m).as_str()).concat(" values, found ").concat(decimal(usize_to_u64(n)).as_str());
                    push_finding(out, make_finding(None, None, None, "http://www.w3.org/ns/shacl#maxCount", msg));
                }
            },
            PropertyConstraint::HasValue(v) => {
                if !crate::closure::contains_node(&values, v) {
                    proof {
                        assert(crate::closure::node_views(values@) =~= vv);
                    }
                    let msg = join("Required value ", v.as_str()).concat(" not found");
                    push_finding(out, make_finding(None, None, None, "http://www.w3.org/ns/shacl#hasValue", msg));
                } else {
                    proof {
                        assert(crate::closure::node_views(values@) =~= vv);
                    }
                }
            },
            _ => {},
        }
        proof {
            assert(results_view(out@) =~= before + standalone_results(cs.take(k + 1), objs));
        }
        k += 1;
    }
    proof {
        assert(cs.take(cs.len() as int) =~= cs);
    }
}

/// How validation treats what it finds.
#[derive(Debug, Clone, Copy, PartialEq, Eq, Structural)]
pub enum ValidationMode {
    /// Stop after the first shape that leaves findings.
    FailFast,
    /// Record findings and still report conformance.
    Warn,
    /// Check nothing.
    Skip,
}

impl Default for ValidationMode {
    fn default() -> (r: Self)
        ensures
            r == ValidationMode::FailFast,
    {
        ValidationMode::FailFast
    }
}

/// The options of a validation.
#[derive(Debug, Clone, Copy)]
pub struct ValidationConfig {
    pub mode: ValidationMode,
    pub report_jsonld: bool,
}

impl Default for ValidationConfig {
    fn default() -> (r: Self)
        ensures
            r.mode == ValidationMode::FailFast,
            !r.report_jsonld,
    {
        ValidationConfig { mode: ValidationMode::FailFast, report_jsonld: false }
    }
}

/// The outcome of a validation: whether the data conforms, the findings,
/// and, when asked for, a copy of the shapes.
#[derive(Debug)]
pub struct ValidationReport {
    pub conforms: bool,
    pub results: Vec<ValidationResult>,
    pub shapes_graph: Option<ShapesGraph>,
}

/// Checks the triples of a store against a shapes graph.
#[derive(Debug)]
pub struct DefaultShaclValidator;

/// The report carries a copy of the shapes exactly when asked for.
pub open spec fn shapes_copy_ok(rep: ValidationReport, shapes: ShapesGraph, config: ValidationConfig) -> bool {
    &&& (rep.shapes_graph is Some <==> config.report_jsonld)
    &&& (rep.shapes_graph matches Some(g) ==> g.shapes_view() == shapes.shapes_view())
}

/// The copy of the shapes for a report, when asked for.
fn shapes_for_report(shapes: &ShapesGraph, config: &ValidationConfig) -> (r: Option<ShapesGraph>)
    ensures
        r is Some <==> config.report_jsonld,
        r matches Some(g) ==> g.shapes_view() == shapes.shapes_view(),
{
    if config.report_jsonld { Some(shapes.copy()) } else { None }
}

impl DefaultShaclValidator {
    /// Check the store against every shape in turn: a node shape against
    /// each of its focus nodes, a property shape on its own against the
    /// objects of all triples. In fail-fast mode checking stops after the
    /// first shape that leaves findings; in warn mode the data conforms
    /// whatever was found; in skip mode nothing is checked. A property
    /// shape whose path is not one step is refused.
    pub fn validate_graph(&self, shapes: &ShapesGraph, store: &RdfStore, config: &ValidationConfig) -> (r: Result<ValidationReport, ShaclError>)
        ensures
            config.mode == ValidationMode::Skip ==> (r matches Ok(rep) && rep.conforms && rep.results@.len() == 0
                && shapes_copy_ok(rep, *shapes, *config)),
            config.mode != ValidationMode::Skip ==> match validate_upto(shapes.shapes_view(), store.view_triples(),
                config.mode == ValidationMode::FailFast, shapes.shapes_view().len() as int) {
                None => r matches Err(ShaclError::UnsupportedFeature(m)) && m@ == "Complex property paths not yet implemented"@,
                Some((rs, _)) => r matches Ok(rep) && results_view(rep.results@) == rs
                    && rep.conforms == (config.mode == ValidationMode::Warn || rs.len() == 0)
                    && shapes_copy_ok(rep, *shapes, *config),
            },
    {
        if config.mode == ValidationMode::Skip {
            let sg = shapes_for_report(shapes, config);
            return Ok(ValidationReport { conforms: true, results: Vec::new(), shapes_graph: sg });
        }
        let fail_fast = config.mode == ValidationMode::FailFast;
        let triples = store.all_triples();
        let ghost ts = store.view_triples();
        let ghost g = shapes.shapes_view();
        let mut results: Vec<ValidationResult> = Vec::new();
        proof {
            assert(results_view(results@) =~= Seq::<ResultV>::empty());
        }
        let mut k: usize = 0;
        while k < shapes.shapes.len()
            invariant
                k <= shapes.shapes@.len(),
                g == shapes.shapes_view(),
                ts == triples_view(triples@),
                fail_fast == (config.mode == ValidationMode::FailFast),
                config.mode != ValidationMode::Skip,
                ts == store.view_triples(),
                validate_upto(g, ts, fail_fast, k as int) == Some((results_view(results@), false)),
            decreases shapes.shapes.len() - k,
        {
            proof {
                assert(g[k as int].1 == shape_view(shapes.shapes@[k as int].1));
            }
            let ghost before = results_view(results@);
            match &shapes.shapes[k].1 {
                Shape::Node(n) => {
                    let ok = node_shape_exec(n, shapes, triples, &mut results);
                    if !ok {
                        proof {
                            assert(validate_upto(g, ts, fail_fast, k as int + 1) is None);
                            lemma_validate_none(g, ts, fail_fast, k as int + 1, g.len() as int);
                        }
                        return Err(ShaclError::UnsupportedFeature("Complex property paths not yet implemented".to_string()));
                    }
                },
                Shape::Property(p) => {
                    standalone_exec(p, triples, &mut results);
                },
            }
            proof {
                assert(validate_upto(g, ts, fail_fast, k as int + 1) == Some((results_view(results@), fail_fast && results_view(results@).len() > 0)));
            }
            k += 1;
            if fail_fast && results.len() > 0 {
                proof {
                    lemma_validate_stopped(g, ts, fail_fast, k as int, g.len() as int);
                }
                let sg = shapes_for_report(shapes, config);
                return Ok(ValidationReport { conforms: config.mode == ValidationMode::Warn || results.len() == 0, results, shapes_graph: sg });
            }
        }
        let sg = shapes_for_report(shapes, config);
        let conforms = config.mode == ValidationMode::Warn || results.len() == 0;
        Ok(ValidationReport { conforms, results, shapes_graph: sg })
    }
}

/// Once checking met a complex path, the whole run has.
proof fn lemma_validate_none(g: Seq<(Seq<char>, ShapeV)>, ts: Seq<TripleView>, ff: bool, k: int, n: int)
    requires
        0 <= k <= n,
        validate_upto(g, ts, ff, k) is None,
    ensures
        validate_upto(g, ts, ff, n) is None,
    decreases n - k,
{
    if k < n {
        lemma_validate_none(g, ts, ff, k + 1, n);
    }
}

/// Once checking stopped, later shapes change nothing.
proof fn lemma_validate_stopped(g: Seq<(Seq<char>, ShapeV)>, ts: Seq<TripleView>, ff: bool, k: int, n: int)
    requires
        0 <= k <= n,
        validate_upto(g, ts, ff, k) matches Some((rs, true)),
    ensures
        validate_upto(g, ts, ff, n) == validate_upto(g, ts, ff, k),
    decreases n - k,
{
    if k < n {
        lemma_validate_stopped(g, ts, ff, k + 1, n);
    }
}

/// The name of a level, as `Debug` writes it.
pub open spec fn level_text(l: ViolationLevel) -> Seq<char> {
    match l {
        ViolationLevel::Violation => "Violation"@,
        ViolationLevel::Warning => "Warning"@,
        ViolationLevel::Info => "Info"@,
    }
}

fn level_str(l: ViolationLevel) -> (r: &'static str)
    ensures
        r@ == level_text(l),
{
    match l {
        ViolationLevel::Violation => "Violation",
        ViolationLevel::Warning => "Warning",
        ViolationLevel::Info => "Info",
    }
}

/// The lines of the `n`-th finding (counted from one) in a report.
pub open spec fn result_lines(n: nat, r: ResultV) -> Seq<char> {
    "Violation "@ + decimal_spec(n) + ": "@ + (match r.message { Some(m) => m, None => "No message"@ }) + "\n"@
        + (match r.focus { Some(f) => "  Focus Node: "@ + f + "\n"@, None => Seq::empty() })
        + (match r.value { Some(v) => "  Value: "@ + debug_quoted(v) + "\n"@, None => Seq::empty() })
        + "  Severity: "@ + level_text(r.severity) + "\n"@
        + "  Constraint: "@ + r.component + "\n"@ + "\n"@
}

/// The lines of the findings in turn, numbered from one.
pub open spec fn results_lines(rs: Seq<ResultV>) -> Seq<char>
    decreases rs.len(),
{
    if rs.len() == 0 {
        Seq::empty()
    } else {
        results_lines(rs.drop_last()) + result_lines(rs.len(), rs.last())
    }
}

/// The readable text of a report.
pub open spec fn report_text(conforms: bool, rs: Seq<ResultV>) -> Seq<char> {
    "Validation Report: "@ + (if conforms { "CONFORMS"@ } else { "DOES NOT CONFORM"@ }) + "\n"@ + results_lines(rs)
}

/// How many findings have the level.
pub open spec fn level_count(rs: Seq<ResultV>, l: ViolationLevel) -> nat
    decreases rs.len(),
{
    if rs.len() == 0 {
        0
    } else {
        level_count(rs.drop_last(), l) + if rs.last().severity == l { 1nat } else { 0nat }
    }
}

impl ValidationReport {
    /// The report as JSON: only whether the data conforms.
    pub fn to_jsonld(&self) -> (r: Result<JsonValue, ShaclError>)
        ensures
            r matches Ok(j) && json_view(j) == JsonV::Object(seq![("conforms"@, JsonV::Bool(self.conforms))]),
    {
        let mut fields: Vec<(String, JsonValue)> = Vec::new();
        fields.push(("conforms".to_string(), JsonValue::Bool(self.conforms)));
        let j = JsonValue::Object(fields);
        proof {
            assert(fields@.drop_last() =~= Seq::<(String, JsonValue)>::empty());
            assert(crate::model::json_fields_view(fields@.drop_last()) =~= Seq::<(Seq<char>, JsonV)>::empty());
            assert(json_view(fields@.last().1) == JsonV::Bool(self.conforms));
            assert(crate::model::json_fields_view(fields@) =~= seq![("conforms"@, JsonV::Bool(self.conforms))]);
        }
        Ok(j)
    }

    /// The report after the SHACL prefix line.
    pub fn to_turtle(&self) -> (r: String)
        ensures
            r@ == "@prefix sh: <http://www.w3.org/ns/shacl#> .\n\n"@ + report_text(self.conforms, results_view(self.results@)),
    {
        let text = self.to_simple_string();
        join("@prefix sh: <http://www.w3.org/ns/shacl#> .\n\n", text.as_str())
    }

    /// The readable text of the report.
    pub fn to_simple_string(&self) -> (r: String)
        ensures
            r@ == report_text(self.conforms, results_view(self.results@)),
    {
        let head = if self.conforms { "CONFORMS" } else { "DOES NOT CONFORM" };
        let mut out = join("Validation Report: ", head).concat("\n");
        let ghost rv = results_view(self.results@);
        proof {
            assert(rv.take(0) =~= Seq::<ResultV>::empty());
        }
        let mut k: usize = 0;
        while k < self.results.len()
            invariant
                k <= self.results@.len(),
                rv == results_view(self.results@),
                out@ == "Validation Report: "@ + (if self.conforms { "CONFORMS"@ } else { "DOES NOT CONFORM"@ }) + "\n"@ + results_lines(rv.take(k as int)),
            decreases self.results.len() - k,
        {
            let r = &self.results[k];
            let ghost rview = result_view(*r);
            proof {
                assert(rv.take(k + 1).drop_last() =~= rv.take(k as int));
                assert(rv.take(k + 1).last() == rview);
            }
            let line = result_line(k, r);
            out = out.concat(line.as_str());
            proof {
                assert(out@ =~= "Validation Report: "@ + (if self.conforms { "CONFORMS"@ } else { "DOES NOT CONFORM"@ }) + "\n"@ + results_lines(rv.take(k + 1)));
            }
            k += 1;
        }
        proof {
            assert(rv.take(rv.len() as int) =~= rv);
        }
        out
    }

    fn count_level(&self, l: ViolationLevel) -> (r: usize)
        ensures
            r == level_count(results_view(self.results@), l),
    {
        let ghost rv = results_view(self.results@);
        let mut n: usize = 0;
        let mut k: usize = 0;
        while k < self.results.len()
            invariant
                k <= self.results@.len(),
                rv == results_view(self.results@),
                n == level_count(rv.take(k as int), l),
                n <= k,
            decreases self.results.len() - k,
        {
            proof {
                assert(rv.take(k + 1).drop_last() =~= rv.take(k as int));
                assert(rv.take(k + 1).last() == result_view(self.results@[k as int]));
            }
            if self.results[k].severity == l {
                n += 1;
            }
            k += 1;
        }
        proof {
            assert(rv.take(rv.len() as int) =~= rv);
        }
        n
    }

    /// How many findings are violations.
    pub fn violation_count(&self) -> (r: usize)
        ensures
            r == level_count(results_view(self.results@), ViolationLevel::Violation),
    {
        self.count_level(ViolationLevel::Violation)
    }

    /// How many findings are warnings.
    pub fn warning_count(&self) -> (r: usize)
        ensures
            r == level_count(results_view(self.results@), ViolationLevel::Warning),
    {
        self.count_level(ViolationLevel::Warning)
    }

    /// How many findings are informational.
    pub fn info_count(&self) -> (r: usize)
        ensures
            r == level_count(results_view(self.results@), ViolationLevel::Info),
    {
        self.count_level(ViolationLevel::Info)
    }
}

impl ValidationResult {
    /// A finding of the given level about a constraint, with a message.
    pub open spec fn plain(focus: Option<Seq<char>>, constraint: Seq<char>, message: Seq<char>, l: ViolationLevel) -> ResultV {
        ResultV { focus, path: None, value: None, component: constraint, source_shape: None, has_detail: false, message: Some(message), severity: l }
    }

    fn with_level(focus_node: Option<String>, constraint: String, message: String, severity: ViolationLevel) -> (r: Self)
        ensures
            result_view(r) == Self::plain(ostr(focus_node), constraint@, message@, severity),
    {
        ValidationResult { focus_node, result_path: None, value: None, source_constraint_component: constraint,
            source_shape: None, detail: None, message: Some(message), severity }
    }

    /// A violation.
    pub fn violation(focus_node: Option<String>, constraint: String, message: String) -> (r: Self)
        ensures
            result_view(r) == Self::plain(ostr(focus_node), constraint@, message@, ViolationLevel::Violation),
    {
        Self::with_level(focus_node, constraint, message, ViolationLevel::Violation)
    }

    /// A warning.
    pub fn warning(focus_node: Option<String>, constraint: String, message: String) -> (r: Self)
        ensures
            result_view(r) == Self::plain(ostr(focus_node), constraint@, message@, ViolationLevel::Warning),
    {
        Self::with_level(focus_node, constraint, message, ViolationLevel::Warning)
    }

    /// An informational finding.
    pub fn info(focus_node: Option<String>, constraint: String, message: String) -> (r: Self)
        ensures
            result_view(r) == Self::plain(ostr(focus_node), constraint@, message@, ViolationLevel::Info),
    {
        Self::with_level(focus_node, constraint, message, ViolationLevel::Info)
    }
}

/// The lines of the finding at position `k` of a report.
fn result_line(k: usize, r: &ValidationResult) -> (line: String)
    requires
        k < usize::MAX,
    ensures
        line@ == result_lines((k + 1) as nat, result_view(*r)),
{
    let msg: String = match &r.message { Some(m) => m.clone(), None => "No message".to_string() };
    let mut line = join("Violation ", decimal(usize_to_u64(k) + 1).as_str()).concat(": ").concat(msg.as_str()).concat("\n");
    match &r.focus_node {
        Some(f) => { line = line.concat("  Focus Node: ").concat(f.as_str()).concat("\n"); },
        None => {},
    }
    match &r.value {
        Some(v) => { line = line.concat("  Value: ").concat(debug_text(v.as_str()).as_str()).concat("\n"); },
        None => {},
    }
    line = line.concat("  Severity: ").concat(level_str(r.severity)).concat("\n");
    line = line.concat("  Constraint: ").concat(r.source_constraint_component.as_str()).concat("\n").concat("\n");
    proof {
        assert(line@ =~= result_lines((k + 1) as nat, result_view(*r)));
    }
    line
}

} // verus!
