//! The rules that users give a reasoner, and the registry that runs them.

use vstd::prelude::*;
use std::collections::HashMap;
use crate::model::{Triple, TripleView};
use crate::rdf_store::RdfStore;
use crate::rules::{RuleError, TriplePattern, TripleTemplate};
use crate::rules::dsl::{RuleResult, ValidationViolation};

verus! {

/// A rule that the reasoner applies to a store. Users implement it for
/// their own rules, and each implementation says, through `may_decline`
/// and `apply_answer`, which answers it may give.
pub trait Rule {
    /// The name of the rule.
    fn name(&self) -> &'static str;

    /// What the rule does.
    fn description(&self) -> &'static str;

    /// The priority of the rule (higher runs first where a caller sorts).
    fn priority(&self) -> i32 {
        0
    }

    /// Whether the rule may answer that it does not apply to a store
    /// holding `ts`; an implementation that says nothing allows it.
    open spec fn may_decline(&self, ts: Seq<TripleView>) -> bool {
        true
    }

    /// Whether `r` is a result the rule may give when applied to a store
    /// holding `ts`; an implementation that says nothing allows any.
    open spec fn apply_answer(&self, ts: Seq<TripleView>, r: Result<RuleResult, RuleError>) -> bool {
        true
    }

    /// Apply the rule to a store.
    fn apply(&self, store: &RdfStore) -> (r: Result<RuleResult, RuleError>)
        ensures
            self.apply_answer(store.view_triples(), r);

    /// Whether the rule applies to a store at all.
    fn should_apply(&self, store: &RdfStore) -> (r: bool)
        ensures
            !r ==> self.may_decline(store.view_triples()),
    {
        true
    }
}

/// A rule that only looks for violations. Each implementation says,
/// through `validate_answer`, which results it may give.
pub trait ValidationRule {
    /// The name of the rule.
    fn name(&self) -> &'static str;

    /// What the rule does.
    fn description(&self) -> &'static str;

    /// Whether `r` is a result the rule may give when validating a store
    /// holding `ts`; an implementation that says nothing allows any.
    open spec fn validate_answer(&self, ts: Seq<TripleView>, r: Result<Vec<ValidationViolation>, RuleError>) -> bool {
        true
    }

    /// The violations in a store.
    fn validate(&self, store: &RdfStore) -> (r: Result<Vec<ValidationViolation>, RuleError>)
        ensures
            self.validate_answer(store.view_triples(), r);
}

/// The values bound to the variables of patterns, by variable name.
pub type BindingMap = HashMap<String, String>;

/// A rule that infers triples from bound patterns.
pub trait InferenceRule {
    /// The name of the rule.
    fn name(&self) -> &'static str;

    /// The patterns that must match.
    fn conditions(&self) -> &[TriplePattern];

    /// The triples to produce.
    fn conclusions(&self) -> &[TripleTemplate];

    /// The triples inferred for the bindings of the variables.
    fn infer(&self, bindings: &BindingMap, store: &RdfStore) -> Result<Vec<Triple>, RuleError>;
}

/// A list one longer after a push.
proof fn lemma_push_len<T>(s: Seq<T>, x: T)
    ensures
        s.push(x).len() == s.len() + 1,
{
}

/// The rules of a registry, in the order they were registered.
pub struct RuleRegistry {
    rules: Vec<Box<dyn Rule>>,
    validation_rules: Vec<Box<dyn ValidationRule>>,
    inference_rules: Vec<Box<dyn InferenceRule>>,
}

impl RuleRegistry {
    /// The general rules, in the order they were registered.
    pub closed spec fn rule_list(&self) -> Seq<Box<dyn Rule>> {
        self.rules@
    }

    /// The validation rules, in the order they were registered.
    pub closed spec fn validation_rule_list(&self) -> Seq<Box<dyn ValidationRule>> {
        self.validation_rules@
    }

    /// The number of general rules.
    pub closed spec fn count_rules(&self) -> nat {
        self.rules@.len()
    }

    /// The number of validation rules.
    pub closed spec fn count_validation_rules(&self) -> nat {
        self.validation_rules@.len()
    }

    /// The number of inference rules.
    pub closed spec fn count_inference_rules(&self) -> nat {
        self.inference_rules@.len()
    }

    /// The number of general rules.
    pub fn rule_count(&self) -> (r: usize)
        ensures
            r == self.count_rules(),
    {
        self.rules.len()
    }

    /// The number of validation rules.
    pub fn validation_rule_count(&self) -> (r: usize)
        ensures
            r == self.count_validation_rules(),
    {
        self.validation_rules.len()
    }

    /// The number of inference rules.
    pub fn inference_rule_count(&self) -> (r: usize)
        ensures
            r == self.count_inference_rules(),
    {
        self.inference_rules.len()
    }

    /// A registry without rules.
    pub fn new() -> (r: Self)
        ensures
            r.count_rules() == 0,
            r.count_validation_rules() == 0,
            r.count_inference_rules() == 0,
    {
        RuleRegistry { rules: Vec::new(), validation_rules: Vec::new(), inference_rules: Vec::new() }
    }

    /// Register a general rule after the others.
    pub fn register_rule(&mut self, rule: Box<dyn Rule>)
        ensures
            final(self).count_rules() == old(self).count_rules() + 1,
            final(self).count_validation_rules() == old(self).count_validation_rules(),
            final(self).count_inference_rules() == old(self).count_inference_rules(),
    {
        let ghost before = self.rules@;
        let ghost r = rule;
        self.rules.push(rule);
        proof {
            lemma_push_len(before, r);
        }
    }

    /// Register a validation rule after the others.
    pub fn register_validation_rule(&mut self, rule: Box<dyn ValidationRule>)
        ensures
            final(self).count_validation_rules() == old(self).count_validation_rules() + 1,
            final(self).count_rules() == old(self).count_rules(),
            final(self).count_inference_rules() == old(self).count_inference_rules(),
    {
        let ghost before = self.validation_rules@;
        let ghost r = rule;
        self.validation_rules.push(rule);
        proof {
            lemma_push_len(before, r);
        }
    }

    /// Register an inference rule after the others.
    pub fn register_inference_rule(&mut self, rule: Box<dyn InferenceRule>)
        ensures
            final(self).count_inference_rules() == old(self).count_inference_rules() + 1,
            final(self).count_rules() == old(self).count_rules(),
            final(self).count_validation_rules() == old(self).count_validation_rules(),
    {
        let ghost before = self.inference_rules@;
        let ghost r = rule;
        self.inference_rules.push(rule);
        proof {
            lemma_push_len(before, r);
        }
    }

    /// Apply each general rule that applies to the store, in order; the
    /// first error stops the run. What each rule answers is its own (see
    /// `Rule`); the result is gathered from those answers.
    pub fn apply_all_rules(&self, store: &RdfStore) -> (r: Result<Vec<RuleResult>, RuleError>)
        ensures
            exists|outs: Seq<Option<Result<RuleResult, RuleError>>>| #[trigger] rules_answered(self.rule_list(), store.view_triples(), outs)
                && results_from(r, gather_results(outs)),
            r matches Ok(v) ==> v@.len() <= self.count_rules(),
            self.count_rules() == 0 ==> (r matches Ok(v) && v@.len() == 0),
    {
        let ghost ts = store.view_triples();
        let ghost mut outs: Seq<Option<Result<RuleResult, RuleError>>> = Seq::empty();
        let mut results: Vec<RuleResult> = Vec::new();
        let mut i: usize = 0;
        while i < self.rules.len()
            invariant
                i <= self.rules@.len(),
                ts == store.view_triples(),
                outs.len() == i,
                results@.len() <= i,
                answers_fit(self.rules@, ts, outs),
                no_error(outs),
                gather_results(outs) == Ok::<Seq<RuleResult>, RuleError>(results@),
            decreases self.rules.len() - i,
        {
            let applies = self.rules[i].should_apply(store);
            if applies {
                let outcome = self.rules[i].apply(store);
                let ghost o = outcome;
                proof {
                    assert(outs.push(Some(o)).drop_last() =~= outs);
                }
                match outcome {
                    Ok(result) => {
                        proof {
                            outs = outs.push(Some(o));
                        }
                        results.push(result);
                    },
                    Err(e) => {
                        proof {
                            outs = outs.push(Some(o));
                            assert(rules_answered(self.rule_list(), ts, outs));
                        }
                        return Err(e);
                    },
                }
            } else {
                proof {
                    assert(outs.push(None).drop_last() =~= outs);
                    outs = outs.push(None);
                }
            }
            i += 1;
        }
        proof {
            assert(rules_answered(self.rule_list(), ts, outs));
        }
        Ok(results)
    }

    /// The violations of every validation rule, rule by rule; the first
    /// error stops the run. What each rule answers is its own (see
    /// `ValidationRule`); the result is gathered from those answers.
    pub fn validate_all(&self, store: &RdfStore) -> (r: Result<Vec<ValidationViolation>, RuleError>)
        ensures
            exists|outs: Seq<Result<Vec<ValidationViolation>, RuleError>>| #[trigger] validations_answered(self.validation_rule_list(), store.view_triples(), outs)
                && violations_from(r, gather_violations(outs)),
            self.count_validation_rules() == 0 ==> (r matches Ok(v) && v@.len() == 0),
    {
        let ghost ts = store.view_triples();
        let ghost mut outs: Seq<Result<Vec<ValidationViolation>, RuleError>> = Seq::empty();
        let mut all: Vec<ValidationViolation> = Vec::new();
        let mut i: usize = 0;
        while i < self.validation_rules.len()
            invariant
                i <= self.validation_rules@.len(),
                ts == store.view_triples(),
                outs.len() == i,
                validations_fit(self.validation_rules@, ts, outs),
                no_validation_error(outs),
                gather_violations(outs) == Ok::<Seq<ValidationViolation>, RuleError>(all@),
            decreases self.validation_rules.len() - i,
        {
            let outcome = self.validation_rules[i].validate(store);
            let ghost o = outcome;
            proof {
                assert(outs.push(o).drop_last() =~= outs);
                outs = outs.push(o);
            }
            match outcome {
                Ok(mut found) => {
                    all.append(&mut found);
                },
                Err(e) => {
                    proof {
                        assert(validations_answered(self.validation_rule_list(), ts, outs));
                    }
                    return Err(e);
                },
            }
            i += 1;
        }
        proof {
            assert(validations_answered(self.validation_rule_list(), ts, outs));
        }
        Ok(all)
    }
}

/// The answers of the first rules fit what each rule may answer: `None` for
/// a rule that declined, the result of applying it otherwise.
pub open spec fn answers_fit(rules: Seq<Box<dyn Rule>>, ts: Seq<TripleView>, outs: Seq<Option<Result<RuleResult, RuleError>>>) -> bool {
    &&& outs.len() <= rules.len()
    &&& forall|k: int| 0 <= k < outs.len() ==> match #[trigger] outs[k] {
        None => rules[k].may_decline(ts),
        Some(o) => rules[k].apply_answer(ts, o),
    }
}

/// No answer is an error.
pub open spec fn no_error(outs: Seq<Option<Result<RuleResult, RuleError>>>) -> bool {
    forall|k: int| 0 <= k < outs.len() ==> !(#[trigger] outs[k] matches Some(Err(_)))
}

/// The answers of a whole run: one for each rule in order, up to the
/// first error or to the last rule.
pub open spec fn rules_answered(rules: Seq<Box<dyn Rule>>, ts: Seq<TripleView>, outs: Seq<Option<Result<RuleResult, RuleError>>>) -> bool {
    &&& answers_fit(rules, ts, outs)
    &&& forall|k: int| 0 <= k < outs.len() - 1 ==> !(#[trigger] outs[k] matches Some(Err(_)))
    &&& outs.len() == rules.len() || (outs.len() > 0 && outs.last() matches Some(Err(_)))
}

/// The results of the applied rules in order, or the first error.
pub open spec fn gather_results(outs: Seq<Option<Result<RuleResult, RuleError>>>) -> Result<Seq<RuleResult>, RuleError>
    decreases outs.len(),
{
    if outs.len() == 0 {
        Ok(Seq::empty())
    } else {
        match gather_results(outs.drop_last()) {
            Err(e) => Err(e),
            Ok(acc) => match outs.last() {
                None => Ok(acc),
                Some(Ok(x)) => Ok(acc.push(x)),
                Some(Err(e)) => Err(e),
            },
        }
    }
}

/// `r` holds what `g` says.
pub open spec fn results_from(r: Result<Vec<RuleResult>, RuleError>, g: Result<Seq<RuleResult>, RuleError>) -> bool {
    match r {
        Ok(v) => g == Ok::<Seq<RuleResult>, RuleError>(v@),
        Err(e) => g == Err::<Seq<RuleResult>, RuleError>(e),
    }
}

/// The answers of the first validation rules fit what each may answer.
pub open spec fn validations_fit(rules: Seq<Box<dyn ValidationRule>>, ts: Seq<TripleView>, outs: Seq<Result<Vec<ValidationViolation>, RuleError>>) -> bool {
    &&& outs.len() <= rules.len()
    &&& forall|k: int| 0 <= k < outs.len() ==> rules[k].validate_answer(ts, #[trigger] outs[k])
}

/// No validation answer is an error.
pub open spec fn no_validation_error(outs: Seq<Result<Vec<ValidationViolation>, RuleError>>) -> bool {
    forall|k: int| 0 <= k < outs.len() ==> (#[trigger] outs[k]) is Ok
}

/// The answers of a whole validation run: one for each rule in order, up
/// to the first error or to the last rule.
pub open spec fn validations_answered(rules: Seq<Box<dyn ValidationRule>>, ts: Seq<TripleView>, outs: Seq<Result<Vec<ValidationViolation>, RuleError>>) -> bool {
    &&& validations_fit(rules, ts, outs)
    &&& forall|k: int| 0 <= k < outs.len() - 1 ==> (#[trigger] outs[k]) is Ok
    &&& outs.len() == rules.len() || (outs.len() > 0 && outs.last() is Err)
}

/// The violations of the rules one after the other, or the first error.
pub open spec fn gather_violations(outs: Seq<Result<Vec<ValidationViolation>, RuleError>>) -> Result<Seq<ValidationViolation>, RuleError>
    decreases outs.len(),
{
    if outs.len() == 0 {
        Ok(Seq::empty())
    } else {
        match gather_violations(outs.drop_last()) {
            Err(e) => Err(e),
            Ok(acc) => match outs.last() {
                Ok(v) => Ok(acc + v@),
                Err(e) => Err(e),
            },
        }
    }
}

/// `r` holds what `g` says.
pub open spec fn violations_from(r: Result<Vec<ValidationViolation>, RuleError>, g: Result<Seq<ValidationViolation>, RuleError>) -> bool {
    match r {
        Ok(v) => g == Ok::<Seq<ValidationViolation>, RuleError>(v@),
        Err(e) => g == Err::<Seq<ValidationViolation>, RuleError>(e),
    }
}

impl Default for RuleRegistry {
    fn default() -> (r: Self)
        ensures
            r.count_rules() == 0,
            r.count_validation_rules() == 0,
            r.count_inference_rules() == 0,
    {
        RuleRegistry::new()
    }
}

} // verus!
