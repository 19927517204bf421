//! The security policy language: policies of rules, each with conditions
//! over the graph and variables, and actions that add or remove triples,
//! raise security actions or report violations.

use vstd::prelude::*;
use crate::model::{Triple, TripleView, triples_view, JsonValue, JsonV, json_view, json_fields_view, push_field,
    SecurityAction, ActionV, action_view, copy_fields};
use crate::rdf_store::RdfStore;
use crate::store::{PatternView, select, pattern_matches};
use crate::outside::current_unix_timestamp;
use crate::text::join;
use super::{RuleError, ViolationLevel, ExtractType, ComparisonOperator, SecurityActionType, Severity};

verus! {

/// What applying a rule yields.
#[derive(Debug)]
pub struct RuleResult {
    pub triples_to_add: Vec<Triple>,
    pub triples_to_remove: Vec<Triple>,
    pub actions: Vec<SecurityAction>,
    pub violations: Vec<ValidationViolation>,
    pub metadata: Vec<(String, JsonValue)>,
}

/// A violation found by a rule.
#[derive(Debug, Clone)]
pub struct ValidationViolation {
    pub level: ViolationLevel,
    pub message: String,
    pub triple: Option<Triple>,
    pub rule_name: String,
    pub context: Vec<(String, JsonValue)>,
}

/// A security policy: rules with conditions and actions.
#[derive(Debug)]
pub struct SecurityPolicy {
    pub name: String,
    pub description: String,
    pub version: String,
    pub priority: i32,
    pub rules: Vec<PolicyRule>,
    pub metadata: Vec<(String, JsonValue)>,
}

/// One rule of a policy.
#[derive(Debug)]
pub struct PolicyRule {
    pub id: String,
    pub name: String,
    pub description: String,
    /// All must hold for the actions to run
    pub conditions: Vec<Condition>,
    pub actions: Vec<PolicyAction>,
    pub severity: Severity,
    pub metadata: Vec<(String, JsonValue)>,
}

/// A condition of a rule.
#[derive(Debug)]
pub enum Condition {
    /// A triple matching the pattern is stored (a part that starts with `?`
    /// matches anything; the predicate is always fixed)
    TripleExists { subject: String, predicate: String, object: String },
    /// No triple matches the pattern
    TripleNotExists { subject: String, predicate: String, object: String },
    /// The variable holds this string
    VariableBinding { variable: String, value: String },
    /// A comparison of two numbers
    NumericComparison { left: ValueExpression, operator: ComparisonOperator, right: ValueExpression },
    And(Vec<Condition>),
    Or(Vec<Condition>),
    Not(Box<Condition>),
}

/// A value in a condition.
#[derive(Debug)]
pub enum ValueExpression {
    Constant(JsonValue),
    Variable(String),
    TripleValue { subject: String, predicate: String, extract: ExtractType },
    FunctionCall { function: String, arguments: Vec<ValueExpression> },
}

/// An action of a rule.
#[derive(Debug)]
pub enum PolicyAction {
    AddTriple { subject: String, predicate: String, object: String },
    RemoveTriple { subject: String, predicate: String, object: String },
    SecurityAction { action_type: SecurityActionType, message: String, details: Vec<(String, JsonValue)> },
    ReportViolation { level: ViolationLevel, message: String, context: Vec<(String, JsonValue)> },
}

/// The value a variable was last set to.
pub open spec fn lookup(vars: Seq<(Seq<char>, JsonV)>, k: Seq<char>) -> Option<JsonV>
    decreases vars.len(),
{
    if vars.len() == 0 {
        None
    } else if vars.last().0 == k {
        Some(vars.last().1)
    } else {
        lookup(vars.drop_last(), k)
    }
}

/// A pattern part: free when it starts with `?`.
pub open spec fn pattern_part(s: Seq<char>) -> Option<Seq<char>> {
    if s.len() > 0 && s[0] == '?' { None } else { Some(s) }
}

/// Some stored triple matches the pattern of a triple condition.
pub open spec fn triple_exists(ts: Seq<TripleView>, s: Seq<char>, p: Seq<char>, o: Seq<char>) -> bool {
    select(ts, PatternView { subject: pattern_part(s), predicate: Some(p), object: pattern_part(o) }).len() > 0
}

/// The number a JSON value holds, 0 for other values.
pub open spec fn json_number(v: JsonV) -> int {
    match v {
        JsonV::Number(n) => n,
        _ => 0,
    }
}

/// A numeric comparison; the containment operators do not apply to numbers
/// (`Contains` is false, `NotContains` true).
pub open spec fn compare_spec(op: ComparisonOperator, l: int, r: int) -> bool {
    match op {
        ComparisonOperator::Equal => l == r,
        ComparisonOperator::NotEqual => l != r,
        ComparisonOperator::GreaterThan => l > r,
        ComparisonOperator::LessThan => l < r,
        ComparisonOperator::GreaterThanOrEqual => l >= r,
        ComparisonOperator::LessThanOrEqual => l <= r,
        ComparisonOperator::Contains => false,
        ComparisonOperator::NotContains => true,
    }
}

/// The value of an expression, or the message of the error.
pub open spec fn expr_value(vars: Seq<(Seq<char>, JsonV)>, e: ValueExpression) -> Result<JsonV, Seq<char>> {
    match e {
        ValueExpression::Constant(v) => Ok(json_view(v)),
        ValueExpression::Variable(n) => match lookup(vars, n@) {
            Some(v) => Ok(v),
            None => Err("Variable not found: "@ + n@),
        },
        ValueExpression::TripleValue { .. } => Err("Triple value extraction not implemented"@),
        ValueExpression::FunctionCall { .. } => Err("Function calls not implemented"@),
    }
}

/// Whether a condition holds, or the message of the error met first.
pub open spec fn cond_value(vars: Seq<(Seq<char>, JsonV)>, ts: Seq<TripleView>, c: Condition) -> Result<bool, Seq<char>>
    decreases c,
{
    match c {
        Condition::TripleExists { subject, predicate, object } => Ok(triple_exists(ts, subject@, predicate@, object@)),
        Condition::TripleNotExists { subject, predicate, object } => Ok(!triple_exists(ts, subject@, predicate@, object@)),
        Condition::VariableBinding { variable, value } => Ok(match lookup(vars, variable@) {
            Some(JsonV::Str(x)) => x == value@,
            Some(_) => value@.len() == 0,
            None => false,
        }),
        Condition::NumericComparison { left, operator, right } => match expr_value(vars, left) {
            Err(m) => Err(m),
            Ok(l) => match expr_value(vars, right) {
                Err(m) => Err(m),
                Ok(r) => Ok(compare_spec(operator, json_number(l), json_number(r))),
            },
        },
        Condition::And(cs) => conds_all(vars, ts, cs@),
        Condition::Or(cs) => conds_any(vars, ts, cs@),
        Condition::Not(b) => match cond_value(vars, ts, *b) {
            Ok(x) => Ok(!x),
            Err(m) => Err(m),
        },
    }
}

/// A numeric comparison between two expressions whose values are the
/// numbers `x` and `y` holds exactly when the operator's relation holds
/// between `x` and `y`, in that order: `x < y` for LessThan, `x > y` for
/// GreaterThan, `x <= y` and `x >= y` for the inclusive ones, `x == y` for
/// Equal and `x != y` for NotEqual.
pub proof fn law_numeric_comparison(vars: Seq<(Seq<char>, JsonV)>, ts: Seq<TripleView>, left: ValueExpression,
    right: ValueExpression, x: int, y: int)
    requires
        expr_value(vars, left) == Ok::<JsonV, Seq<char>>(JsonV::Number(x)),
        expr_value(vars, right) == Ok::<JsonV, Seq<char>>(JsonV::Number(y)),
    ensures
        cond_value(vars, ts, Condition::NumericComparison { left, operator: ComparisonOperator::LessThan, right })
            == Ok::<bool, Seq<char>>(x < y),
        cond_value(vars, ts, Condition::NumericComparison { left, operator: ComparisonOperator::GreaterThan, right })
            == Ok::<bool, Seq<char>>(x > y),
        cond_value(vars, ts, Condition::NumericComparison { left, operator: ComparisonOperator::LessThanOrEqual, right })
            == Ok::<bool, Seq<char>>(x <= y),
        cond_value(vars, ts, Condition::NumericComparison { left, operator: ComparisonOperator::GreaterThanOrEqual, right })
            == Ok::<bool, Seq<char>>(x >= y),
        cond_value(vars, ts, Condition::NumericComparison { left, operator: ComparisonOperator::Equal, right })
            == Ok::<bool, Seq<char>>(x == y),
        cond_value(vars, ts, Condition::NumericComparison { left, operator: ComparisonOperator::NotEqual, right })
            == Ok::<bool, Seq<char>>(x != y),
{
}

/// Whether all conditions hold, evaluated in order up to the first that
/// fails or errs.
pub open spec fn conds_all(vars: Seq<(Seq<char>, JsonV)>, ts: Seq<TripleView>, cs: Seq<Condition>) -> Result<bool, Seq<char>>
    decreases cs,
{
    if cs.len() == 0 {
        Ok(true)
    } else {
        match conds_all(vars, ts, cs.drop_last()) {
            Err(m) => Err(m),
            Ok(false) => Ok(false),
            Ok(true) => cond_value(vars, ts, cs.last()),
        }
    }
}

/// Whether some condition holds, evaluated in order up to the first that
/// holds or errs.
pub open spec fn conds_any(vars: Seq<(Seq<char>, JsonV)>, ts: Seq<TripleView>, cs: Seq<Condition>) -> Result<bool, Seq<char>>
    decreases cs,
{
    if cs.len() == 0 {
        Ok(false)
    } else {
        match conds_any(vars, ts, cs.drop_last()) {
            Err(m) => Err(m),
            Ok(true) => Ok(true),
            Ok(false) => cond_value(vars, ts, cs.last()),
        }
    }
}

/// Where every condition of `cs` evaluates without error, all of them hold
/// exactly when each one holds, and some of them hold exactly when at least
/// one holds.
pub proof fn law_conditions_all_any(vars: Seq<(Seq<char>, JsonV)>, ts: Seq<TripleView>, cs: Seq<Condition>)
    requires
        forall|k: int| 0 <= k < cs.len() ==> (#[trigger] cond_value(vars, ts, cs[k])) is Ok,
    ensures
        conds_all(vars, ts, cs) == Ok::<bool, Seq<char>>(forall|k: int| 0 <= k < cs.len() ==> #[trigger] cond_value(vars, ts, cs[k]) == Ok::<bool, Seq<char>>(true)),
        conds_any(vars, ts, cs) == Ok::<bool, Seq<char>>(exists|k: int| 0 <= k < cs.len() && #[trigger] cond_value(vars, ts, cs[k]) == Ok::<bool, Seq<char>>(true)),
    decreases cs.len(),
{
    if cs.len() > 0 {
        let p = cs.drop_last();
        assert forall|k: int| 0 <= k < p.len() implies (#[trigger] cond_value(vars, ts, p[k])) is Ok by {
            assert(p[k] == cs[k]);
            assert(cond_value(vars, ts, cs[k]) is Ok);
        }
        law_conditions_all_any(vars, ts, p);
        let n = cs.len() - 1;
        assert(cs[n] == cs.last());
        assert(cond_value(vars, ts, cs[n]) is Ok);
        let b = cond_value(vars, ts, cs.last())->Ok_0;
        let ap = forall|k: int| 0 <= k < p.len() ==> #[trigger] cond_value(vars, ts, p[k]) == Ok::<bool, Seq<char>>(true);
        let ac = forall|k: int| 0 <= k < cs.len() ==> #[trigger] cond_value(vars, ts, cs[k]) == Ok::<bool, Seq<char>>(true);
        let ep = exists|k: int| 0 <= k < p.len() && #[trigger] cond_value(vars, ts, p[k]) == Ok::<bool, Seq<char>>(true);
        let ec = exists|k: int| 0 <= k < cs.len() && #[trigger] cond_value(vars, ts, cs[k]) == Ok::<bool, Seq<char>>(true);
        assert(ac == (ap && b)) by {
            if ac {
                assert forall|k: int| 0 <= k < p.len() implies #[trigger] cond_value(vars, ts, p[k]) == Ok::<bool, Seq<char>>(true) by {
                    assert(p[k] == cs[k]);
                    assert(cond_value(vars, ts, cs[k]) == Ok::<bool, Seq<char>>(true));
                }
                assert(cond_value(vars, ts, cs[n]) == Ok::<bool, Seq<char>>(true));
            }
            if ap && b {
                assert forall|k: int| 0 <= k < cs.len() implies #[trigger] cond_value(vars, ts, cs[k]) == Ok::<bool, Seq<char>>(true) by {
                    if k < p.len() {
                        assert(p[k] == cs[k]);
                        assert(cond_value(vars, ts, p[k]) == Ok::<bool, Seq<char>>(true));
                    }
                }
            }
        }
        assert(ec == (ep || b)) by {
            if ec {
                let k = choose|k: int| 0 <= k < cs.len() && #[trigger] cond_value(vars, ts, cs[k]) == Ok::<bool, Seq<char>>(true);
                if k < p.len() {
                    assert(p[k] == cs[k]);
                    assert(cond_value(vars, ts, p[k]) == Ok::<bool, Seq<char>>(true));
                }
            }
            if ep {
                let k = choose|k: int| 0 <= k < p.len() && #[trigger] cond_value(vars, ts, p[k]) == Ok::<bool, Seq<char>>(true);
                assert(p[k] == cs[k]);
                assert(cond_value(vars, ts, cs[k]) == Ok::<bool, Seq<char>>(true));
            }
            if b {
                assert(cond_value(vars, ts, cs[n]) == Ok::<bool, Seq<char>>(true));
            }
        }
    }
}

/// `part` of a triple condition accepts `x`: a part that starts with `?`
/// accepts anything, another part only itself.
pub open spec fn accepts(part: Seq<char>, x: Seq<char>) -> bool {
    (part.len() > 0 && part[0] == '?') || part == x
}

/// A triple condition holds exactly when some stored triple has its
/// predicate and agrees with its subject and object, and the negated
/// triple condition exactly when none does.
pub proof fn law_triple_conditions(vars: Seq<(Seq<char>, JsonV)>, ts: Seq<TripleView>, s: String, p: String, o: String)
    ensures
        cond_value(vars, ts, Condition::TripleExists { subject: s, predicate: p, object: o }) == Ok::<bool, Seq<char>>(
            exists|i: int| 0 <= i < ts.len() && (#[trigger] ts[i]).predicate == p@ && accepts(s@, ts[i].subject) && accepts(o@, ts[i].object)),
        cond_value(vars, ts, Condition::TripleNotExists { subject: s, predicate: p, object: o }) == Ok::<bool, Seq<char>>(
            !exists|i: int| 0 <= i < ts.len() && (#[trigger] ts[i]).predicate == p@ && accepts(s@, ts[i].subject) && accepts(o@, ts[i].object)),
{
    let pat = PatternView { subject: pattern_part(s@), predicate: Some(p@), object: pattern_part(o@) };
    crate::store::law_find_exact(ts, pat);
    let found = exists|i: int| 0 <= i < ts.len() && (#[trigger] ts[i]).predicate == p@ && accepts(s@, ts[i].subject) && accepts(o@, ts[i].object);
    assert(triple_exists(ts, s@, p@, o@) == found) by {
        if select(ts, pat).len() > 0 {
            let x = select(ts, pat)[0];
            assert(select(ts, pat).contains(x));
            let i = choose|i: int| 0 <= i < ts.len() && ts[i] == x;
            assert(ts[i].predicate == p@ && accepts(s@, ts[i].subject) && accepts(o@, ts[i].object));
        }
        if found {
            let i = choose|i: int| 0 <= i < ts.len() && (#[trigger] ts[i]).predicate == p@ && accepts(s@, ts[i].subject) && accepts(o@, ts[i].object);
            assert(ts.contains(ts[i]));
            assert(pattern_matches(pat, ts[i]));
            assert(select(ts, pat).contains(ts[i]));
        }
    }
}

/// A negated condition holds exactly when the condition does not, and
/// fails with the same error where the condition does.
pub proof fn law_condition_not(vars: Seq<(Seq<char>, JsonV)>, ts: Seq<TripleView>, c: Condition)
    ensures
        cond_value(vars, ts, Condition::Not(Box::new(c))) is Ok <==> cond_value(vars, ts, c) is Ok,
        cond_value(vars, ts, c) matches Ok(b) ==> cond_value(vars, ts, Condition::Not(Box::new(c))) == Ok::<bool, Seq<char>>(!b),
        cond_value(vars, ts, c) matches Err(m) ==> cond_value(vars, ts, Condition::Not(Box::new(c))) == Err::<bool, Seq<char>>(m),
{
}

/// A violation as a value.
pub struct ViolationV {
    pub level: ViolationLevel,
    pub message: Seq<char>,
    pub triple: Option<TripleView>,
    pub rule_name: Seq<char>,
    pub context: Seq<(Seq<char>, JsonV)>,
}

/// The value of a violation.
pub open spec fn violation_view(v: ValidationViolation) -> ViolationV {
    ViolationV {
        level: v.level,
        message: v.message@,
        triple: match v.triple { Some(t) => Some(t@), None => None },
        rule_name: v.rule_name@,
        context: json_fields_view(v.context@),
    }
}

/// What the rules of a policy yield, as values.
pub struct PolicyOutputV {
    pub add: Seq<TripleView>,
    pub remove: Seq<TripleView>,
    pub actions: Seq<ActionV>,
    pub violations: Seq<ViolationV>,
}

/// The values of what a rule result holds, but its metadata.
pub open spec fn result_view(r: RuleResult) -> PolicyOutputV {
    PolicyOutputV {
        add: triples_view(r.triples_to_add@),
        remove: triples_view(r.triples_to_remove@),
        actions: r.actions@.map_values(|a: SecurityAction| action_view(a)),
        violations: r.violations@.map_values(|v: ValidationViolation| violation_view(v)),
    }
}

/// The word of a severity.
pub open spec fn severity_text(s: Severity) -> Seq<char> {
    match s {
        Severity::Low => "low"@,
        Severity::Medium => "medium"@,
        Severity::High => "high"@,
        Severity::Critical => "critical"@,
    }
}

/// The alert a security action of a rule raises; the detail keys stand in
/// sorted order, as serde_json writes them.
pub open spec fn security_action_spec(rule: PolicyRule, t: SecurityActionType, message: Seq<char>, details: Seq<(Seq<char>, JsonV)>) -> ActionV {
    let sev = severity_text(rule.severity);
    let d = JsonV::Object(details);
    match t {
        SecurityActionType::Alert => ActionV::Alert(sev, message, d),
        SecurityActionType::Block => ActionV::Alert("high"@, "Block action required: "@ + message, JsonV::Object(seq![
            ("action_type"@, JsonV::Str("block"@)),
            ("original_details"@, d),
            ("reason"@, JsonV::Str("Policy violation: "@ + rule.name@)),
        ])),
        SecurityActionType::Log => ActionV::Alert("info"@, "Log: "@ + message, JsonV::Object(seq![
            ("action_type"@, JsonV::Str("log"@)),
            ("level"@, JsonV::Str(sev)),
            ("original_details"@, d),
        ])),
        SecurityActionType::Quarantine => ActionV::Alert("critical"@, "Quarantine required: "@ + message, JsonV::Object(seq![
            ("action_type"@, JsonV::Str("quarantine"@)),
            ("original_details"@, d),
            ("reason"@, JsonV::Str("Policy violation: "@ + rule.name@)),
        ])),
        SecurityActionType::Notify => ActionV::Alert(sev, "Notification: "@ + message, JsonV::Object(seq![
            ("action_type"@, JsonV::Str("notify"@)),
            ("original_details"@, d),
            ("priority"@, JsonV::Str(sev)),
            ("recipients"@, JsonV::Array(seq![JsonV::Str(message)])),
        ])),
    }
}

/// The outputs after the actions of a rule that fired.
pub open spec fn apply_actions(acc: PolicyOutputV, rule: PolicyRule, acts: Seq<PolicyAction>) -> PolicyOutputV
    decreases acts.len(),
{
    if acts.len() == 0 {
        acc
    } else {
        let a = apply_actions(acc, rule, acts.drop_last());
        match acts.last() {
            PolicyAction::AddTriple { subject, predicate, object } =>
                PolicyOutputV { add: a.add.push(TripleView { subject: subject@, predicate: predicate@, object: object@ }), ..a },
            PolicyAction::RemoveTriple { subject, predicate, object } =>
                PolicyOutputV { remove: a.remove.push(TripleView { subject: subject@, predicate: predicate@, object: object@ }), ..a },
            PolicyAction::SecurityAction { action_type, message, details } =>
                PolicyOutputV { actions: a.actions.push(security_action_spec(rule, action_type, message@, json_fields_view(details@))), ..a },
            PolicyAction::ReportViolation { level, message, context } =>
                PolicyOutputV { violations: a.violations.push(ViolationV {
                    level, message: message@, triple: None, rule_name: rule.id@, context: json_fields_view(context@),
                }), ..a },
        }
    }
}

/// Nothing yet.
pub open spec fn no_output() -> PolicyOutputV {
    PolicyOutputV { add: Seq::empty(), remove: Seq::empty(), actions: Seq::empty(), violations: Seq::empty() }
}

/// The outputs of the rules in order: a rule whose conditions all hold
/// applies its actions; the first error stops the run.
pub open spec fn run_rules(vars: Seq<(Seq<char>, JsonV)>, ts: Seq<TripleView>, rules: Seq<PolicyRule>) -> Result<PolicyOutputV, Seq<char>>
    decreases rules.len(),
{
    if rules.len() == 0 {
        Ok(no_output())
    } else {
        match run_rules(vars, ts, rules.drop_last()) {
            Err(m) => Err(m),
            Ok(acc) => match conds_all(vars, ts, rules.last().conditions@) {
                Err(m) => Err(m),
                Ok(false) => Ok(acc),
                Ok(true) => Ok(apply_actions(acc, rules.last(), rules.last().actions@)),
            },
        }
    }
}

/// Two outputs, one after the other.
pub open spec fn join_outputs(a: PolicyOutputV, b: PolicyOutputV) -> PolicyOutputV {
    PolicyOutputV { add: a.add + b.add, remove: a.remove + b.remove, actions: a.actions + b.actions, violations: a.violations + b.violations }
}

/// What a rule whose conditions hold contributes by itself: its triples to
/// add and to remove, its security actions and its violations, in the order
/// of its actions.
pub open spec fn rule_output(rule: PolicyRule) -> PolicyOutputV {
    apply_actions(no_output(), rule, rule.actions@)
}

/// The contributions of the rules whose conditions all hold, in order.
pub open spec fn fired_output(vars: Seq<(Seq<char>, JsonV)>, ts: Seq<TripleView>, rules: Seq<PolicyRule>) -> PolicyOutputV
    decreases rules.len(),
{
    if rules.len() == 0 {
        no_output()
    } else {
        let prev = fired_output(vars, ts, rules.drop_last());
        if conds_all(vars, ts, rules.last().conditions@) == Ok::<bool, Seq<char>>(true) {
            join_outputs(prev, rule_output(rules.last()))
        } else {
            prev
        }
    }
}

proof fn lemma_apply_actions_join(acc: PolicyOutputV, rule: PolicyRule, acts: Seq<PolicyAction>)
    ensures
        apply_actions(acc, rule, acts) == join_outputs(acc, apply_actions(no_output(), rule, acts)),
    decreases acts.len(),
{
    if acts.len() == 0 {
        let j = join_outputs(acc, no_output());
        assert(j.add =~= acc.add);
        assert(j.remove =~= acc.remove);
        assert(j.actions =~= acc.actions);
        assert(j.violations =~= acc.violations);
    } else {
        lemma_apply_actions_join(acc, rule, acts.drop_last());
        let a0 = apply_actions(no_output(), rule, acts.drop_last());
        let b = apply_actions(no_output(), rule, acts);
        let r = apply_actions(acc, rule, acts);
        let j = join_outputs(acc, b);
        match acts.last() {
            PolicyAction::AddTriple { subject, predicate, object } => {
                let t = TripleView { subject: subject@, predicate: predicate@, object: object@ };
                assert((acc.add + a0.add).push(t) =~= acc.add + a0.add.push(t));
            },
            PolicyAction::RemoveTriple { subject, predicate, object } => {
                let t = TripleView { subject: subject@, predicate: predicate@, object: object@ };
                assert((acc.remove + a0.remove).push(t) =~= acc.remove + a0.remove.push(t));
            },
            PolicyAction::SecurityAction { action_type, message, details } => {
                let x = security_action_spec(rule, action_type, message@, json_fields_view(details@));
                assert((acc.actions + a0.actions).push(x) =~= acc.actions + a0.actions.push(x));
            },
            PolicyAction::ReportViolation { level, message, context } => {
                let x = ViolationV { level, message: message@, triple: None, rule_name: rule.id@, context: json_fields_view(context@) };
                assert((acc.violations + a0.violations).push(x) =~= acc.violations + a0.violations.push(x));
            },
        }
        assert(r.add =~= j.add);
        assert(r.remove =~= j.remove);
        assert(r.actions =~= j.actions);
        assert(r.violations =~= j.violations);
    }
}

/// Action `a` adds (`removal` false) or removes (`removal` true) triple `t`.
pub open spec fn action_changes(a: PolicyAction, removal: bool, t: TripleView) -> bool {
    match a {
        PolicyAction::AddTriple { subject, predicate, object } =>
            !removal && t == (TripleView { subject: subject@, predicate: predicate@, object: object@ }),
        PolicyAction::RemoveTriple { subject, predicate, object } =>
            removal && t == (TripleView { subject: subject@, predicate: predicate@, object: object@ }),
        _ => false,
    }
}

/// A firing rule's actions add exactly the triples of its AddTriple actions
/// and remove exactly those of its RemoveTriple actions, in their order:
/// the other actions touch no triple, and no action touches the others'
/// list.
pub proof fn law_actions_change_triples(acc: PolicyOutputV, rule: PolicyRule, acts: Seq<PolicyAction>)
    ensures
        forall|t: TripleView| #[trigger] apply_actions(acc, rule, acts).add.contains(t) <==>
            (acc.add.contains(t) || exists|k: int| 0 <= k < acts.len() && action_changes(#[trigger] acts[k], false, t)),
        forall|t: TripleView| #[trigger] apply_actions(acc, rule, acts).remove.contains(t) <==>
            (acc.remove.contains(t) || exists|k: int| 0 <= k < acts.len() && action_changes(#[trigger] acts[k], true, t)),
    decreases acts.len(),
{
    if acts.len() > 0 {
        let p = acts.drop_last();
        law_actions_change_triples(acc, rule, p);
        let a0 = apply_actions(acc, rule, p);
        let a1 = apply_actions(acc, rule, acts);
        let n = acts.len() - 1;
        assert(acts[n] == acts.last());
        assert forall|t: TripleView| #[trigger] a1.add.contains(t) <==>
            (acc.add.contains(t) || exists|k: int| 0 <= k < acts.len() && action_changes(#[trigger] acts[k], false, t)) by {
            if a0.add.contains(t) {
                let i = choose|i: int| 0 <= i < a0.add.len() && a0.add[i] == t;
                assert(a1.add[i] == t);
            }
            if exists|k: int| 0 <= k < acts.len() && action_changes(#[trigger] acts[k], false, t) {
                let k = choose|k: int| 0 <= k < acts.len() && action_changes(#[trigger] acts[k], false, t);
                if k < n {
                    assert(p[k] == acts[k]);
                    assert(a0.add.contains(t));
                    let i = choose|i: int| 0 <= i < a0.add.len() && a0.add[i] == t;
                    match acts.last() {
                        PolicyAction::AddTriple { subject, predicate, object } => {
                            assert(a1.add[i] == t);
                        },
                        _ => {},
                    }
                } else {
                    assert(a1.add[a0.add.len() as int] == t);
                }
            }
            if a1.add.contains(t) {
                let i = choose|i: int| 0 <= i < a1.add.len() && a1.add[i] == t;
                match acts.last() {
                    PolicyAction::AddTriple { subject, predicate, object } => {
                        if i < a0.add.len() {
                            assert(a0.add[i] == t);
                            assert(a0.add.contains(t));
                            if !acc.add.contains(t) {
                                let k = choose|k: int| 0 <= k < p.len() && action_changes(#[trigger] p[k], false, t);
                                assert(acts[k] == p[k]);
                            }
                        } else {
                            assert(action_changes(acts[n], false, t));
                        }
                    },
                    _ => {
                        assert(a0.add.contains(t));
                        if !acc.add.contains(t) {
                            let k = choose|k: int| 0 <= k < p.len() && action_changes(#[trigger] p[k], false, t);
                            assert(acts[k] == p[k]);
                        }
                    },
                }
            }
        }
        assert forall|t: TripleView| #[trigger] a1.remove.contains(t) <==>
            (acc.remove.contains(t) || exists|k: int| 0 <= k < acts.len() && action_changes(#[trigger] acts[k], true, t)) by {
            if a0.remove.contains(t) {
                let i = choose|i: int| 0 <= i < a0.remove.len() && a0.remove[i] == t;
                assert(a1.remove[i] == t);
            }
            if exists|k: int| 0 <= k < acts.len() && action_changes(#[trigger] acts[k], true, t) {
                let k = choose|k: int| 0 <= k < acts.len() && action_changes(#[trigger] acts[k], true, t);
                if k < n {
                    assert(p[k] == acts[k]);
                    assert(a0.remove.contains(t));
                    let i = choose|i: int| 0 <= i < a0.remove.len() && a0.remove[i] == t;
                    match acts.last() {
                        PolicyAction::RemoveTriple { subject, predicate, object } => {
                            assert(a1.remove[i] == t);
                        },
                        _ => {},
                    }
                } else {
                    assert(a1.remove[a0.remove.len() as int] == t);
                }
            }
            if a1.remove.contains(t) {
                let i = choose|i: int| 0 <= i < a1.remove.len() && a1.remove[i] == t;
                match acts.last() {
                    PolicyAction::RemoveTriple { subject, predicate, object } => {
                        if i < a0.remove.len() {
                            assert(a0.remove[i] == t);
                            assert(a0.remove.contains(t));
                            if !acc.remove.contains(t) {
                                let k = choose|k: int| 0 <= k < p.len() && action_changes(#[trigger] p[k], true, t);
                                assert(acts[k] == p[k]);
                            }
                        } else {
                            assert(action_changes(acts[n], true, t));
                        }
                    },
                    _ => {
                        assert(a0.remove.contains(t));
                        if !acc.remove.contains(t) {
                            let k = choose|k: int| 0 <= k < p.len() && action_changes(#[trigger] p[k], true, t);
                            assert(acts[k] == p[k]);
                        }
                    },
                }
            }
        }
    }
}

/// Running a policy's rules fails exactly when the conditions of some rule
/// cannot be evaluated. Otherwise the output is what the rules whose
/// conditions all hold contribute, each by itself and in their order; the
/// other rules contribute nothing.
pub proof fn law_policy_run(vars: Seq<(Seq<char>, JsonV)>, ts: Seq<TripleView>, rules: Seq<PolicyRule>)
    ensures
        run_rules(vars, ts, rules) is Err <==> exists|k: int| 0 <= k < rules.len() && conds_all(vars, ts, (#[trigger] rules[k]).conditions@) is Err,
        run_rules(vars, ts, rules) matches Ok(out) ==> out == fired_output(vars, ts, rules),
    decreases rules.len(),
{
    if rules.len() == 0 {
    } else {
        let r0 = rules.drop_last();
        law_policy_run(vars, ts, r0);
        if exists|k: int| 0 <= k < r0.len() && conds_all(vars, ts, (#[trigger] r0[k]).conditions@) is Err {
            let k = choose|k: int| 0 <= k < r0.len() && conds_all(vars, ts, (#[trigger] r0[k]).conditions@) is Err;
            assert(rules[k] == r0[k]);
        }
        if exists|k: int| 0 <= k < rules.len() && conds_all(vars, ts, (#[trigger] rules[k]).conditions@) is Err {
            let k = choose|k: int| 0 <= k < rules.len() && conds_all(vars, ts, (#[trigger] rules[k]).conditions@) is Err;
            if k < rules.len() - 1 {
                assert(r0[k] == rules[k]);
            }
        }
        match run_rules(vars, ts, r0) {
            Err(_) => {},
            Ok(acc) => {
                lemma_apply_actions_join(acc, rules.last(), rules.last().actions@);
            },
        }
    }
}

/// Once a prefix of the conditions fails or errs, every longer prefix does
/// the same.
proof fn lemma_all_stays(vars: Seq<(Seq<char>, JsonV)>, ts: Seq<TripleView>, cs: Seq<Condition>, n: int)
    requires
        0 <= n <= cs.len(),
        conds_all(vars, ts, cs.take(n)) != Ok::<bool, Seq<char>>(true),
    ensures
        conds_all(vars, ts, cs) == conds_all(vars, ts, cs.take(n)),
    decreases cs.len() - n,
{
    if n < cs.len() {
        assert(cs.take(n + 1).drop_last() =~= cs.take(n));
        lemma_all_stays(vars, ts, cs, n + 1);
    } else {
        assert(cs.take(n) =~= cs);
    }
}

/// Once a prefix of the conditions holds somewhere or errs, every longer
/// prefix does the same.
proof fn lemma_any_stays(vars: Seq<(Seq<char>, JsonV)>, ts: Seq<TripleView>, cs: Seq<Condition>, n: int)
    requires
        0 <= n <= cs.len(),
        conds_any(vars, ts, cs.take(n)) != Ok::<bool, Seq<char>>(false),
    ensures
        conds_any(vars, ts, cs) == conds_any(vars, ts, cs.take(n)),
    decreases cs.len() - n,
{
    if n < cs.len() {
        assert(cs.take(n + 1).drop_last() =~= cs.take(n));
        lemma_any_stays(vars, ts, cs, n + 1);
    } else {
        assert(cs.take(n) =~= cs);
    }
}

/// The error of the policy language with a message.
pub open spec fn is_execution_error<T>(r: Result<T, RuleError>, m: Seq<char>) -> bool {
    r matches Err(RuleError::ExecutionError { message }) && message@ == m
}

/// A free pattern part (`None`) when the text starts with `?`.
fn pattern_part_of(s: &String) -> (r: Option<&str>)
    ensures
        crate::store::opt_view(r) == pattern_part(s@),
{
    let t = s.as_str();
    if t.unicode_len() > 0 && t.get_char(0) == '?' {
        None
    } else {
        Some(t)
    }
}

/// The engine that runs security policies over a store.
#[derive(Debug)]
pub struct DslRuleEngine {
    policies: Vec<SecurityPolicy>,
    /// The variables in the order they were set; the last setting counts
    variables: Vec<(String, JsonValue)>,
}

impl DslRuleEngine {
    /// The variables as values, in the order they were set.
    pub closed spec fn vars_view(&self) -> Seq<(Seq<char>, JsonV)> {
        json_fields_view(self.variables@)
    }

    /// The policies, in the order they were added.
    pub closed spec fn policies_of(&self) -> Seq<SecurityPolicy> {
        self.policies@
    }

    /// An engine without policies or variables.
    pub fn new() -> (r: Self)
        ensures
            r.policies_of().len() == 0,
            r.vars_view().len() == 0,
    {
        let r = DslRuleEngine { policies: Vec::new(), variables: Vec::new() };
        proof {
            assert(json_fields_view(r.variables@) =~= Seq::<(Seq<char>, JsonV)>::empty());
        }
        r
    }

    /// Add a policy after the others.
    pub fn add_policy(&mut self, policy: SecurityPolicy)
        ensures
            final(self).policies_of() == old(self).policies_of().push(policy),
            final(self).vars_view() == old(self).vars_view(),
    {
        self.policies.push(policy);
    }

    /// Set a variable; a later setting hides an earlier one.
    pub fn set_variable(&mut self, name: String, value: JsonValue)
        ensures
            final(self).vars_view() == old(self).vars_view().push((name@, json_view(value))),
            final(self).policies_of() == old(self).policies_of(),
    {
        push_field(&mut self.variables, name.as_str(), value);
    }

    /// The value a variable was last set to.
    fn lookup_variable(&self, name: &String) -> (r: Option<&JsonValue>)
        ensures
            match r {
                Some(v) => lookup(self.vars_view(), name@) == Some(json_view(*v)),
                None => lookup(self.vars_view(), name@) is None,
            },
    {
        let ghost vv = self.vars_view();
        let mut i: usize = self.variables.len();
        proof {
            assert(self.variables@.take(i as int) =~= self.variables@);
        }
        while i > 0
            invariant
                i <= self.variables@.len(),
                vv == json_fields_view(self.variables@),
                lookup(vv, name@) == lookup(json_fields_view(self.variables@.take(i as int)), name@),
            decreases i,
        {
            let ghost pre = self.variables@.take(i as int);
            proof {
                assert(pre.drop_last() =~= self.variables@.take(i - 1));
                assert(pre.last() == self.variables@[i - 1]);
                let fv = json_fields_view(pre);
                assert(fv == json_fields_view(pre.drop_last()).push((pre.last().0@, json_view(pre.last().1))));
                assert(fv.drop_last() =~= json_fields_view(self.variables@.take(i - 1)));
                assert(fv.last() == (pre.last().0@, json_view(pre.last().1)));
            }
            if self.variables[i - 1].0 == *name {
                return Some(&self.variables[i - 1].1);
            }
            i -= 1;
        }
        None
    }

    /// The value of an expression.
    fn evaluate_expression(&self, expr: &ValueExpression) -> (r: Result<JsonValue, RuleError>)
        ensures
            match expr_value(self.vars_view(), *expr) {
                Ok(v) => r matches Ok(x) && json_view(x) == v,
                Err(m) => is_execution_error(r, m),
            },
    {
        match expr {
            ValueExpression::Constant(value) => Ok(value.clone()),
            ValueExpression::Variable(name) => match self.lookup_variable(name) {
                Some(v) => Ok(v.clone()),
                None => Err(RuleError::ExecutionError { message: join("Variable not found: ", name.as_str()) }),
            },
            ValueExpression::TripleValue { .. } => Err(RuleError::ExecutionError { message: "Triple value extraction not implemented".to_string() }),
            ValueExpression::FunctionCall { .. } => Err(RuleError::ExecutionError { message: "Function calls not implemented".to_string() }),
        }
    }

    /// Whether a triple matching the pattern of a triple condition is stored.
    fn triple_exists(subject: &String, predicate: &String, object: &String, store: &RdfStore) -> (r: bool)
        ensures
            r == triple_exists(store.view_triples(), subject@, predicate@, object@),
    {
        let s = pattern_part_of(subject);
        let o = pattern_part_of(object);
        let results = store.find_triples(s, Some(predicate.as_str()), o);
        proof {
            assert(results@.map_values(|t: &Triple| t@).len() == results@.len());
        }
        results.len() > 0
    }

    /// Whether a condition holds.
    fn evaluate_condition(&self, condition: &Condition, store: &RdfStore) -> (r: Result<bool, RuleError>)
        ensures
            match cond_value(self.vars_view(), store.view_triples(), *condition) {
                Ok(b) => r matches Ok(x) && x == b,
                Err(m) => is_execution_error(r, m),
            },
        decreases condition,
    {
        let ghost vv = self.vars_view();
        let ghost ts = store.view_triples();
        match condition {
            Condition::TripleExists { subject, predicate, object } => Ok(Self::triple_exists(subject, predicate, object, store)),
            Condition::TripleNotExists { subject, predicate, object } => Ok(!Self::triple_exists(subject, predicate, object, store)),
            Condition::VariableBinding { variable, value } => match self.lookup_variable(variable) {
                Some(v) => match v {
                    JsonValue::Str(x) => Ok(*x == *value),
                    _ => Ok(value.as_str().unicode_len() == 0),
                },
                None => Ok(false),
            },
            Condition::NumericComparison { left, operator, right } => {
                let l = match self.evaluate_expression(left) {
                    Ok(v) => v,
                    Err(e) => { return Err(e); },
                };
                let r = match self.evaluate_expression(right) {
                    Ok(v) => v,
                    Err(e) => { return Err(e); },
                };
                let ln: i64 = match l { JsonValue::Number(n) => n, _ => 0 };
                let rn: i64 = match r { JsonValue::Number(n) => n, _ => 0 };
                let result = match operator {
                    ComparisonOperator::Equal => ln == rn,
                    ComparisonOperator::NotEqual => ln != rn,
                    ComparisonOperator::GreaterThan => ln > rn,
                    ComparisonOperator::LessThan => ln < rn,
                    ComparisonOperator::GreaterThanOrEqual => ln >= rn,
                    ComparisonOperator::LessThanOrEqual => ln <= rn,
                    ComparisonOperator::Contains => false,
                    ComparisonOperator::NotContains => true,
                };
                Ok(result)
            },
            Condition::And(conds) => {
                let mut k: usize = 0;
                proof {
                    assert(conds@.take(0) =~= Seq::<Condition>::empty());
                }
                while k < conds.len()
                    invariant
                        k <= conds@.len(),
                        vv == self.vars_view(),
                        ts == store.view_triples(),
                        *condition == Condition::And(*conds),
                        conds_all(vv, ts, conds@.take(k as int)) == Ok::<bool, Seq<char>>(true),
                    decreases conds.len() - k,
                {
                    proof {
                        assert(decreases_to!(*condition => *conds));
                        assert(decreases_to!(*conds => conds@));
                        assert(decreases_to!(conds@ => conds@[k as int]));
                        assert(conds@.take(k + 1).drop_last() =~= conds@.take(k as int));
                        assert(conds@.take(k + 1).last() == conds@[k as int]);
                    }
                    match self.evaluate_condition(&conds[k], store) {
                        Ok(b) => {
                            if !b {
                                proof {
                                    lemma_all_stays(vv, ts, conds@, k + 1);
                                }
                                return Ok(false);
                            }
                        },
                        Err(e) => {
                            proof {
                                lemma_all_stays(vv, ts, conds@, k + 1);
                            }
                            return Err(e);
                        },
                    }
                    k += 1;
                }
                proof {
                    assert(conds@.take(conds@.len() as int) =~= conds@);
                }
                Ok(true)
            },
            Condition::Or(conds) => {
                let mut k: usize = 0;
                proof {
                    assert(conds@.take(0) =~= Seq::<Condition>::empty());
                }
                while k < conds.len()
                    invariant
                        k <= conds@.len(),
                        vv == self.vars_view(),
                        ts == store.view_triples(),
                        *condition == Condition::Or(*conds),
                        conds_any(vv, ts, conds@.take(k as int)) == Ok::<bool, Seq<char>>(false),
                    decreases conds.len() - k,
                {
                    proof {
                        assert(decreases_to!(*condition => *conds));
                        assert(decreases_to!(*conds => conds@));
                        assert(decreases_to!(conds@ => conds@[k as int]));
                        assert(conds@.take(k + 1).drop_last() =~= conds@.take(k as int));
                        assert(conds@.take(k + 1).last() == conds@[k as int]);
                    }
                    match self.evaluate_condition(&conds[k], store) {
                        Ok(b) => {
                            if b {
                                proof {
                                    lemma_any_stays(vv, ts, conds@, k + 1);
                                }
                                return Ok(true);
                            }
                        },
                        Err(e) => {
                            proof {
                                lemma_any_stays(vv, ts, conds@, k + 1);
                            }
                            return Err(e);
                        },
                    }
                    k += 1;
                }
                proof {
                    assert(conds@.take(conds@.len() as int) =~= conds@);
                }
                Ok(false)
            },
            Condition::Not(inner) => match self.evaluate_condition(&**inner, store) {
                Ok(b) => Ok(!b),
                Err(e) => Err(e),
            },
        }
    }

    /// Whether all conditions hold.
    fn evaluate_conditions(&self, conditions: &Vec<Condition>, store: &RdfStore) -> (r: Result<bool, RuleError>)
        ensures
            match conds_all(self.vars_view(), store.view_triples(), conditions@) {
                Ok(b) => r matches Ok(x) && x == b,
                Err(m) => is_execution_error(r, m),
            },
    {
        let ghost vv = self.vars_view();
        let ghost ts = store.view_triples();
        let mut k: usize = 0;
        proof {
            assert(conditions@.take(0) =~= Seq::<Condition>::empty());
        }
        while k < conditions.len()
            invariant
                k <= conditions@.len(),
                vv == self.vars_view(),
                ts == store.view_triples(),
                conds_all(vv, ts, conditions@.take(k as int)) == Ok::<bool, Seq<char>>(true),
            decreases conditions.len() - k,
        {
            proof {
                assert(conditions@.take(k + 1).drop_last() =~= conditions@.take(k as int));
                assert(conditions@.take(k + 1).last() == conditions@[k as int]);
            }
            match self.evaluate_condition(&conditions[k], store) {
                Ok(b) => {
                    if !b {
                        proof {
                            lemma_all_stays(vv, ts, conditions@, k + 1);
                        }
                        return Ok(false);
                    }
                },
                Err(e) => {
                    proof {
                        lemma_all_stays(vv, ts, conditions@, k + 1);
                    }
                    return Err(e);
                },
            }
            k += 1;
        }
        proof {
            assert(conditions@.take(conditions@.len() as int) =~= conditions@);
        }
        Ok(true)
    }
}

/// What a run of all policies yields when none errs: the outputs of each
/// policy, one after the other.
pub open spec fn combined_outputs(vars: Seq<(Seq<char>, JsonV)>, ts: Seq<TripleView>, ps: Seq<SecurityPolicy>) -> PolicyOutputV
    decreases ps.len(),
{
    if ps.len() == 0 {
        no_output()
    } else {
        let a = combined_outputs(vars, ts, ps.drop_last());
        match run_rules(vars, ts, ps.last().rules@) {
            Ok(b) => PolicyOutputV { add: a.add + b.add, remove: a.remove + b.remove, actions: a.actions + b.actions,
                violations: a.violations + b.violations },
            Err(_) => a,
        }
    }
}

/// The error of the first policy whose run errs.
pub open spec fn policies_error(vars: Seq<(Seq<char>, JsonV)>, ts: Seq<TripleView>, ps: Seq<SecurityPolicy>) -> Option<Seq<char>>
    decreases ps.len(),
{
    if ps.len() == 0 {
        None
    } else {
        match policies_error(vars, ts, ps.drop_last()) {
            Some(m) => Some(m),
            None => match run_rules(vars, ts, ps.last().rules@) {
                Err(m) => Some(m),
                Ok(_) => None,
            },
        }
    }
}

/// Once a prefix of the rules errs, the whole run errs the same way.
proof fn lemma_run_stays_err(vars: Seq<(Seq<char>, JsonV)>, ts: Seq<TripleView>, rules: Seq<PolicyRule>, n: int, m: Seq<char>)
    requires
        0 <= n <= rules.len(),
        run_rules(vars, ts, rules.take(n)) == Err::<PolicyOutputV, Seq<char>>(m),
    ensures
        run_rules(vars, ts, rules) == Err::<PolicyOutputV, Seq<char>>(m),
    decreases rules.len() - n,
{
    if n < rules.len() {
        assert(rules.take(n + 1).drop_last() =~= rules.take(n));
        lemma_run_stays_err(vars, ts, rules, n + 1, m);
    } else {
        assert(rules.take(n) =~= rules);
    }
}

/// Once a prefix of the policies errs, the whole run errs the same way.
proof fn lemma_policies_stay_err(vars: Seq<(Seq<char>, JsonV)>, ts: Seq<TripleView>, ps: Seq<SecurityPolicy>, n: int, m: Seq<char>)
    requires
        0 <= n <= ps.len(),
        policies_error(vars, ts, ps.take(n)) == Some(m),
    ensures
        policies_error(vars, ts, ps) == Some(m),
    decreases ps.len() - n,
{
    if n < ps.len() {
        assert(ps.take(n + 1).drop_last() =~= ps.take(n));
        lemma_policies_stay_err(vars, ts, ps, n + 1, m);
    } else {
        assert(ps.take(n) =~= ps);
    }
}

/// A copy of a string.
fn copy_string(s: &String) -> (r: String)
    ensures
        r@ == s@,
{
    s.as_str().to_string()
}

/// The alert that a security action of a rule raises.
fn make_security_action(rule: &PolicyRule, action_type: SecurityActionType, message: &String, details: &Vec<(String, JsonValue)>) -> (r: SecurityAction)
    ensures
        action_view(r) == security_action_spec(*rule, action_type, message@, json_fields_view(details@)),
{
    let severity = match rule.severity {
        Severity::Low => "low",
        Severity::Medium => "medium",
        Severity::High => "high",
        Severity::Critical => "critical",
    };
    proof {
        assert(severity@ == severity_text(rule.severity));
    }
    let original = JsonValue::Object(copy_fields(details));
    match action_type {
        SecurityActionType::Alert => SecurityAction::Alert {
            severity: severity.to_string(),
            message: copy_string(message),
            details: original,
        },
        SecurityActionType::Block => {
            let mut fields: Vec<(String, JsonValue)> = Vec::new();
            push_field(&mut fields, "action_type", JsonValue::str_value("block"));
            push_field(&mut fields, "original_details", original);
            push_field(&mut fields, "reason", JsonValue::Str(join("Policy violation: ", rule.name.as_str())));
            proof {
                if let ActionV::Alert(_, _, JsonV::Object(expected)) = security_action_spec(*rule, action_type, message@, json_fields_view(details@)) {
                    assert(json_fields_view(fields@) =~= expected);
                }
            }
            SecurityAction::Alert { severity: "high".to_string(), message: join("Block action required: ", message.as_str()), details: JsonValue::Object(fields) }
        },
        SecurityActionType::Log => {
            let mut fields: Vec<(String, JsonValue)> = Vec::new();
            push_field(&mut fields, "action_type", JsonValue::str_value("log"));
            push_field(&mut fields, "level", JsonValue::str_value(severity));
            push_field(&mut fields, "original_details", original);
            proof {
                if let ActionV::Alert(_, _, JsonV::Object(expected)) = security_action_spec(*rule, action_type, message@, json_fields_view(details@)) {
                    assert(json_fields_view(fields@) =~= expected);
                }
            }
            SecurityAction::Alert { severity: "info".to_string(), message: join("Log: ", message.as_str()), details: JsonValue::Object(fields) }
        },
        SecurityActionType::Quarantine => {
            let mut fields: Vec<(String, JsonValue)> = Vec::new();
            push_field(&mut fields, "action_type", JsonValue::str_value("quarantine"));
            push_field(&mut fields, "original_details", original);
            push_field(&mut fields, "reason", JsonValue::Str(join("Policy violation: ", rule.name.as_str())));
            proof {
                if let ActionV::Alert(_, _, JsonV::Object(expected)) = security_action_spec(*rule, action_type, message@, json_fields_view(details@)) {
                    assert(json_fields_view(fields@) =~= expected);
                }
            }
            SecurityAction::Alert { severity: "critical".to_string(), message: join("Quarantine required: ", message.as_str()), details: JsonValue::Object(fields) }
        },
        SecurityActionType::Notify => {
            let mut recipients: Vec<JsonValue> = Vec::new();
            recipients.push(JsonValue::str_value(message.as_str()));
            proof {
                assert(recipients@.drop_last() =~= Seq::<JsonValue>::empty());
                assert(crate::model::json_seq_view(Seq::<JsonValue>::empty()) == Seq::<JsonV>::empty());
                assert(crate::model::json_seq_view(recipients@) == Seq::<JsonV>::empty().push(JsonV::Str(message@)));
                assert(crate::model::json_seq_view(recipients@) =~= seq![JsonV::Str(message@)]);
            }
            let mut fields: Vec<(String, JsonValue)> = Vec::new();
            push_field(&mut fields, "action_type", JsonValue::str_value("notify"));
            push_field(&mut fields, "original_details", original);
            push_field(&mut fields, "priority", JsonValue::str_value(severity));
            push_field(&mut fields, "recipients", JsonValue::Array(recipients));
            proof {
                if let ActionV::Alert(_, _, JsonV::Object(expected)) = security_action_spec(*rule, action_type, message@, json_fields_view(details@)) {
                    assert(json_fields_view(fields@) =~= expected);
                }
            }
            SecurityAction::Alert { severity: severity.to_string(), message: join("Notification: ", message.as_str()), details: JsonValue::Object(fields) }
        },
    }
}

/// The outputs so far as values.
pub open spec fn outputs_view(add: Seq<Triple>, remove: Seq<Triple>, actions: Seq<SecurityAction>, violations: Seq<ValidationViolation>) -> PolicyOutputV {
    PolicyOutputV {
        add: triples_view(add),
        remove: triples_view(remove),
        actions: actions.map_values(|a: SecurityAction| action_view(a)),
        violations: violations.map_values(|v: ValidationViolation| violation_view(v)),
    }
}

/// Run the actions of a rule whose conditions hold.
fn run_actions(rule: &PolicyRule, add: &mut Vec<Triple>, remove: &mut Vec<Triple>, actions: &mut Vec<SecurityAction>, violations: &mut Vec<ValidationViolation>)
    ensures
        outputs_view(final(add)@, final(remove)@, final(actions)@, final(violations)@)
            == apply_actions(outputs_view(old(add)@, old(remove)@, old(actions)@, old(violations)@), *rule, rule.actions@),
{
    let ghost acc = outputs_view(add@, remove@, actions@, violations@);
    let acts = &rule.actions;
    let mut j: usize = 0;
    proof {
        assert(acts@.take(0) =~= Seq::<PolicyAction>::empty());
    }
    while j < acts.len()
        invariant
            j <= acts@.len(),
            *acts == rule.actions,
            outputs_view(add@, remove@, actions@, violations@) == apply_actions(acc, *rule, acts@.take(j as int)),
        decreases acts.len() - j,
    {
        let ghost before = outputs_view(add@, remove@, actions@, violations@);
        proof {
            assert(acts@.take(j + 1).drop_last() =~= acts@.take(j as int));
            assert(acts@.take(j + 1).last() == acts@[j as int]);
        }
        match &acts[j] {
            PolicyAction::AddTriple { subject, predicate, object } => {
                add.push(Triple { subject: copy_string(subject), predicate: copy_string(predicate), object: copy_string(object) });
                proof {
                    assert(triples_view(add@) =~= before.add.push(TripleView { subject: subject@, predicate: predicate@, object: object@ }));
                }
            },
            PolicyAction::RemoveTriple { subject, predicate, object } => {
                remove.push(Triple { subject: copy_string(subject), predicate: copy_string(predicate), object: copy_string(object) });
                proof {
                    assert(triples_view(remove@) =~= before.remove.push(TripleView { subject: subject@, predicate: predicate@, object: object@ }));
                }
            },
            PolicyAction::SecurityAction { action_type, message, details } => {
                let a = make_security_action(rule, *action_type, message, details);
                actions.push(a);
                proof {
                    assert(actions@.map_values(|a: SecurityAction| action_view(a)) =~= before.actions.push(action_view(a)));
                }
            },
            PolicyAction::ReportViolation { level, message, context } => {
                let v = ValidationViolation {
                    level: *level,
                    message: copy_string(message),
                    triple: None,
                    rule_name: copy_string(&rule.id),
                    context: copy_fields(context),
                };
                violations.push(v);
                proof {
                    assert(violations@.map_values(|v: ValidationViolation| violation_view(v)) =~= before.violations.push(violation_view(v)));
                }
            },
        }
        j += 1;
    }
    proof {
        assert(acts@.take(acts@.len() as int) =~= acts@);
    }
}

impl DslRuleEngine {
    /// Run one policy: each rule whose conditions all hold runs its actions;
    /// the result records the policy's name and version and the time of the
    /// run.
    pub fn execute_policy(&self, policy: &SecurityPolicy, store: &RdfStore) -> (r: Result<RuleResult, RuleError>)
        ensures
            match run_rules(self.vars_view(), store.view_triples(), policy.rules@) {
                Ok(out) => r matches Ok(res) && result_view(res) == out
                    && res.metadata@.len() == 3
                    && json_fields_view(res.metadata@).len() == 3
                    && json_fields_view(res.metadata@)[0] == ("policy_name"@, JsonV::Str(policy.name@))
                    && json_fields_view(res.metadata@)[1] == ("policy_version"@, JsonV::Str(policy.version@))
                    && json_fields_view(res.metadata@)[2].0 == "execution_time"@
                    && json_fields_view(res.metadata@)[2].1 is Number,
                Err(m) => is_execution_error(r, m),
            },
    {
        let ghost vv = self.vars_view();
        let ghost ts = store.view_triples();
        let mut add: Vec<Triple> = Vec::new();
        let mut remove: Vec<Triple> = Vec::new();
        let mut actions: Vec<SecurityAction> = Vec::new();
        let mut violations: Vec<ValidationViolation> = Vec::new();
        let rules = &policy.rules;
        let mut k: usize = 0;
        proof {
            assert(rules@.take(0) =~= Seq::<PolicyRule>::empty());
            assert(triples_view(add@) =~= Seq::<TripleView>::empty());
            assert(triples_view(remove@) =~= Seq::<TripleView>::empty());
            assert(actions@.map_values(|a: SecurityAction| action_view(a)) =~= Seq::<ActionV>::empty());
            assert(violations@.map_values(|v: ValidationViolation| violation_view(v)) =~= Seq::<ViolationV>::empty());
            assert(outputs_view(add@, remove@, actions@, violations@) == no_output());
        }
        while k < rules.len()
            invariant
                k <= rules@.len(),
                *rules == policy.rules,
                vv == self.vars_view(),
                ts == store.view_triples(),
                run_rules(vv, ts, rules@.take(k as int)) == Ok::<PolicyOutputV, Seq<char>>(outputs_view(add@, remove@, actions@, violations@)),
            decreases rules.len() - k,
        {
            proof {
                assert(rules@.take(k + 1).drop_last() =~= rules@.take(k as int));
                assert(rules@.take(k + 1).last() == rules@[k as int]);
            }
            match self.evaluate_conditions(&rules[k].conditions, store) {
                Ok(fires) => {
                    if fires {
                        run_actions(&rules[k], &mut add, &mut remove, &mut actions, &mut violations);
                    }
                },
                Err(e) => {
                    proof {
                        let m = choose|m: Seq<char>| conds_all(vv, ts, rules@[k as int].conditions@) == Err::<bool, Seq<char>>(m);
                        lemma_run_stays_err(vv, ts, rules@, k + 1, m);
                    }
                    return Err(e);
                },
            }
            k += 1;
        }
        proof {
            assert(rules@.take(rules@.len() as int) =~= rules@);
        }
        let mut metadata: Vec<(String, JsonValue)> = Vec::new();
        push_field(&mut metadata, "policy_name", JsonValue::str_value(policy.name.as_str()));
        push_field(&mut metadata, "policy_version", JsonValue::str_value(policy.version.as_str()));
        push_field(&mut metadata, "execution_time", JsonValue::Number(current_unix_timestamp()));
        Ok(RuleResult { triples_to_add: add, triples_to_remove: remove, actions, violations, metadata })
    }

    /// Run every policy in order; the first error stops the run.
    pub fn execute_all_policies(&self, store: &RdfStore) -> (r: Result<Vec<RuleResult>, RuleError>)
        ensures
            match policies_error(self.vars_view(), store.view_triples(), self.policies_of()) {
                Some(m) => is_execution_error(r, m),
                None => r matches Ok(v) && v@.len() == self.policies_of().len()
                    && (forall|i: int| 0 <= i < v@.len() ==> run_rules(self.vars_view(), store.view_triples(), self.policies_of()[i].rules@)
                        == Ok::<PolicyOutputV, Seq<char>>(result_view(#[trigger] v@[i])))
                    && (forall|i: int| 0 <= i < v@.len() ==> (#[trigger] v@[i]).metadata@.len() == 3),
            },
    {
        let ghost vv = self.vars_view();
        let ghost ts = store.view_triples();
        let mut results: Vec<RuleResult> = Vec::new();
        let mut k: usize = 0;
        proof {
            assert(self.policies@.take(0) =~= Seq::<SecurityPolicy>::empty());
        }
        while k < self.policies.len()
            invariant
                k <= self.policies@.len(),
                vv == self.vars_view(),
                ts == store.view_triples(),
                policies_error(vv, ts, self.policies@.take(k as int)) is None,
                results@.len() == k,
                forall|i: int| 0 <= i < k ==> run_rules(vv, ts, self.policies@[i].rules@) == Ok::<PolicyOutputV, Seq<char>>(result_view(#[trigger] results@[i])),
                forall|i: int| 0 <= i < k ==> (#[trigger] results@[i]).metadata@.len() == 3,
            decreases self.policies.len() - k,
        {
            proof {
                assert(self.policies@.take(k + 1).drop_last() =~= self.policies@.take(k as int));
                assert(self.policies@.take(k + 1).last() == self.policies@[k as int]);
            }
            match self.execute_policy(&self.policies[k], store) {
                Ok(res) => {
                    results.push(res);
                },
                Err(e) => {
                    proof {
                        let m = choose|m: Seq<char>| run_rules(vv, ts, self.policies@[k as int].rules@) == Err::<PolicyOutputV, Seq<char>>(m);
                        lemma_policies_stay_err(vv, ts, self.policies@, k + 1, m);
                    }
                    return Err(e);
                },
            }
            k += 1;
        }
        proof {
            assert(self.policies@.take(self.policies@.len() as int) =~= self.policies@);
        }
        Ok(results)
    }
}

/// A rule made of security policies.
#[derive(Debug)]
pub struct DslRule {
    engine: DslRuleEngine,
}

impl DslRule {
    /// The policy engine of the rule.
    pub closed spec fn engine_of(&self) -> DslRuleEngine {
        self.engine
    }

    /// A rule without policies.
    pub fn new() -> (r: Self)
        ensures
            r.engine_of().policies_of().len() == 0,
            r.engine_of().vars_view().len() == 0,
    {
        DslRule { engine: DslRuleEngine::new() }
    }

    /// The rule with one more policy.
    pub fn with_policy(self, policy: SecurityPolicy) -> (r: Self)
        ensures
            r.engine_of().policies_of() == self.engine_of().policies_of().push(policy),
            r.engine_of().vars_view() == self.engine_of().vars_view(),
    {
        let mut s = self;
        s.engine.add_policy(policy);
        s
    }

    /// Set a variable of the policies.
    pub fn set_variable(&mut self, name: String, value: JsonValue)
        ensures
            final(self).engine_of().vars_view() == old(self).engine_of().vars_view().push((name@, json_view(value))),
            final(self).engine_of().policies_of() == old(self).engine_of().policies_of(),
    {
        self.engine.set_variable(name, value);
    }

    /// The name of the rule.
    pub fn name(&self) -> (r: &'static str)
        ensures
            r@ == "dsl_rule"@,
    {
        "dsl_rule"
    }

    /// What the rule does.
    pub fn description(&self) -> (r: &'static str)
        ensures
            r@ == "DSL-based security policy rule"@,
    {
        "DSL-based security policy rule"
    }

    /// The priority of the rule.
    pub fn priority(&self) -> (r: i32)
        ensures
            r == 100,
    {
        100
    }

    /// The rule applies when it has a policy.
    pub fn should_apply(&self, _store: &RdfStore) -> (r: bool)
        ensures
            r == (self.engine_of().policies_of().len() > 0),
    {
        self.engine.policies.len() > 0
    }

    /// Run all policies and put their results together, in order.
    pub fn apply(&self, store: &RdfStore) -> (r: Result<RuleResult, RuleError>)
        ensures
            match policies_error(self.engine_of().vars_view(), store.view_triples(), self.engine_of().policies_of()) {
                Some(m) => is_execution_error(r, m),
                None => r matches Ok(res)
                    && result_view(res) == combined_outputs(self.engine_of().vars_view(), store.view_triples(), self.engine_of().policies_of())
                    && res.metadata@.len() == 3 * self.engine_of().policies_of().len(),
            },
    {
        let ghost vv = self.engine.vars_view();
        let ghost ts = store.view_triples();
        let ghost ps = self.engine.policies_of();
        let results = match self.engine.execute_all_policies(store) {
            Ok(v) => v,
            Err(e) => { return Err(e); },
        };
        let mut add: Vec<Triple> = Vec::new();
        let mut remove: Vec<Triple> = Vec::new();
        let mut actions: Vec<SecurityAction> = Vec::new();
        let mut violations: Vec<ValidationViolation> = Vec::new();
        let mut metadata: Vec<(String, JsonValue)> = Vec::new();
        let ghost rv = results@;
        let mut rest = results;
        proof {
            assert(ps.take(0) =~= Seq::<SecurityPolicy>::empty());
            assert(triples_view(add@) =~= Seq::<TripleView>::empty());
            assert(triples_view(remove@) =~= Seq::<TripleView>::empty());
            assert(actions@.map_values(|a: SecurityAction| action_view(a)) =~= Seq::<ActionV>::empty());
            assert(violations@.map_values(|v: ValidationViolation| violation_view(v)) =~= Seq::<ViolationV>::empty());
            assert(rest@ =~= rv.subrange(0, rv.len() as int));
        }
        let ghost mut k: int = 0;
        while rest.len() > 0
            invariant
                0 <= k <= rv.len(),
                rest@ == rv.subrange(k, rv.len() as int),
                rv.len() == ps.len(),
                forall|i: int| 0 <= i < rv.len() ==> run_rules(vv, ts, ps[i].rules@) == Ok::<PolicyOutputV, Seq<char>>(result_view(#[trigger] rv[i])),
                outputs_view(add@, remove@, actions@, violations@) == combined_outputs(vv, ts, ps.take(k)),
                metadata@.len() == 3 * k,
                forall|i: int| 0 <= i < rv.len() ==> (#[trigger] rv[i]).metadata@.len() == 3,
            decreases rest.len(),
        {
            let mut part = rest.remove(0);
            let ghost cur = result_view(rv[k]);
            proof {
                assert(part == rv[k]);
                assert(ps.take(k + 1).drop_last() =~= ps.take(k));
                assert(ps.take(k + 1).last() == ps[k]);
                assert(run_rules(vv, ts, ps[k].rules@) == Ok::<PolicyOutputV, Seq<char>>(cur));
                assert(rest@ =~= rv.subrange(k + 1, rv.len() as int));
            }
            let ghost a0 = add@;
            let ghost r0 = remove@;
            let ghost c0 = actions@;
            let ghost v0 = violations@;
            let ghost pa = part.triples_to_add@;
            let ghost pr = part.triples_to_remove@;
            let ghost pc = part.actions@;
            let ghost pv = part.violations@;
            add.append(&mut part.triples_to_add);
            remove.append(&mut part.triples_to_remove);
            actions.append(&mut part.actions);
            violations.append(&mut part.violations);
            metadata.append(&mut part.metadata);
            proof {
                assert(triples_view(add@) =~= triples_view(a0) + triples_view(pa));
                assert(triples_view(remove@) =~= triples_view(r0) + triples_view(pr));
                assert(actions@.map_values(|a: SecurityAction| action_view(a)) =~= c0.map_values(|a: SecurityAction| action_view(a)) + pc.map_values(|a: SecurityAction| action_view(a)));
                assert(violations@.map_values(|v: ValidationViolation| violation_view(v)) =~= v0.map_values(|v: ValidationViolation| violation_view(v)) + pv.map_values(|v: ValidationViolation| violation_view(v)));
                k = k + 1;
            }
        }
        proof {
            assert(ps.take(ps.len() as int) =~= ps);
        }
        Ok(RuleResult { triples_to_add: add, triples_to_remove: remove, actions, violations, metadata })
    }
}

impl crate::rules::registry::Rule for DslRule {
    open spec fn may_decline(&self, ts: Seq<TripleView>) -> bool {
        self.engine_of().policies_of().len() == 0
    }

    open spec fn apply_answer(&self, ts: Seq<TripleView>, r: Result<RuleResult, RuleError>) -> bool {
        match policies_error(self.engine_of().vars_view(), ts, self.engine_of().policies_of()) {
            Some(m) => is_execution_error(r, m),
            None => r matches Ok(res)
                && result_view(res) == combined_outputs(self.engine_of().vars_view(), ts, self.engine_of().policies_of())
                && res.metadata@.len() == 3 * self.engine_of().policies_of().len(),
        }
    }

    fn name(&self) -> (r: &'static str)
        ensures
            r@ == "dsl_rule"@,
    {
        DslRule::name(self)
    }

    fn description(&self) -> (r: &'static str)
        ensures
            r@ == "DSL-based security policy rule"@,
    {
        DslRule::description(self)
    }

    fn priority(&self) -> (r: i32)
        ensures
            r == 100,
    {
        DslRule::priority(self)
    }

    fn apply(&self, store: &RdfStore) -> (r: Result<RuleResult, RuleError>)
        ensures
            match policies_error(self.engine_of().vars_view(), store.view_triples(), self.engine_of().policies_of()) {
                Some(m) => is_execution_error(r, m),
                None => r matches Ok(res)
                    && result_view(res) == combined_outputs(self.engine_of().vars_view(), store.view_triples(), self.engine_of().policies_of())
                    && res.metadata@.len() == 3 * self.engine_of().policies_of().len(),
            },
    {
        DslRule::apply(self, store)
    }

    fn should_apply(&self, store: &RdfStore) -> (r: bool)
        ensures
            r == (self.engine_of().policies_of().len() > 0),
    {
        DslRule::should_apply(self, store)
    }
}

} // verus!
