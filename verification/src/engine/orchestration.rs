//! The reasoning engine: RDFS inference, the user's rules and validation,
//! in this order, over one store.

use vstd::prelude::*;
use crate::engine::{EngineError, ProcessingOptions, ProcessingStats};
use crate::model::{Triple, TripleView, SecurityAction, triples_view};
use crate::outside::{instant_now, millis_since};
use crate::rdf_store::RdfStore;
use crate::rdfs::{RdfsReasoner, knows_nothing, closure_step};
use crate::rules::registry::{Rule, RuleRegistry, rules_answered, gather_results, validations_answered, gather_violations,
    results_from, violations_from};
use crate::rules::RuleError;
use crate::rules::dsl::{RuleResult, ValidationViolation, PolicyOutputV, result_view, no_output, violation_view, ViolationV};
use crate::cyber::patterns::action_views;

verus! {

/// What a reasoning run yields.
#[derive(Debug, Clone)]
pub struct EngineResult {
    /// Inferred triples added
    pub inferred_triples: Vec<Triple>,
    /// Security actions to execute
    pub actions: Vec<SecurityAction>,
    /// Validation violations found
    pub violations: Vec<ValidationViolation>,
    /// Processing statistics
    pub stats: ProcessingStats,
}

/// The values of a list of violations.
pub open spec fn violation_views(s: Seq<ValidationViolation>) -> Seq<ViolationV> {
    s.map_values(|v: ValidationViolation| violation_view(v))
}

/// The outputs of rule results one after the other.
pub open spec fn outputs_of(rs: Seq<RuleResult>) -> PolicyOutputV
    decreases rs.len(),
{
    if rs.len() == 0 {
        no_output()
    } else {
        let acc = outputs_of(rs.drop_last());
        let o = result_view(rs.last());
        PolicyOutputV {
            add: acc.add + o.add,
            remove: acc.remove + o.remove,
            actions: acc.actions + o.actions,
            violations: acc.violations + o.violations,
        }
    }
}

/// The number of rules applied: the RDFS step, if it ran, and each rule
/// result, up to the largest `usize`.
pub open spec fn applied_count(counted: bool, k: nat) -> int {
    let n = (if counted { 1int } else { 0int }) + k;
    if n > usize::MAX { usize::MAX as int } else { n }
}

/// The result of a run: the RDFS triples, then what the rules add; the
/// rules' actions; the rules' violations, then those of validation.
/// `counted` says whether the RDFS step ran, which counts as one rule.
pub open spec fn engine_output(r: EngineResult, closure: Seq<TripleView>, counted: bool, rs: Seq<RuleResult>, vs: Seq<ValidationViolation>, n: nat) -> bool {
    &&& triples_view(r.inferred_triples@) == closure + outputs_of(rs).add
    &&& action_views(r.actions@) == outputs_of(rs).actions
    &&& violation_views(r.violations@) == outputs_of(rs).violations + violation_views(vs)
    &&& r.stats.rules_applied == applied_count(counted, rs.len())
    &&& r.stats.triples_processed == n
    &&& r.stats.memory_used_kb is None
}

/// Put a run's parts together: the RDFS triples (`counted` says whether the
/// RDFS step ran), the rule results in order and the violations of
/// validation. The time taken is left at 0.
pub fn combine_results(closure: Vec<Triple>, counted: bool, rule_results: Vec<RuleResult>, violations: Vec<ValidationViolation>, triples_processed: usize) -> (r: EngineResult)
    ensures
        engine_output(r, triples_view(closure@), counted, rule_results@, violations@, triples_processed as nat),
        r.stats.execution_time_ms == 0,
{
    let mut inferred = closure;
    let mut actions: Vec<SecurityAction> = Vec::new();
    let mut found: Vec<ValidationViolation> = Vec::new();
    let mut applied: usize = if counted { 1 } else { 0 };
    let ghost c = triples_view(inferred@);
    let ghost rs = rule_results@;
    let mut rest = rule_results;
    let ghost mut k: int = 0;
    proof {
        assert(rs.take(0) =~= Seq::<RuleResult>::empty());
        assert(c + no_output().add =~= c);
        assert(action_views(actions@) =~= Seq::empty());
        assert(violation_views(found@) =~= Seq::empty());
        assert(rest@ =~= rs.subrange(0, rs.len() as int));
    }
    while rest.len() > 0
        invariant
            0 <= k <= rs.len(),
            rest@ == rs.subrange(k, rs.len() as int),
            triples_view(inferred@) == c + outputs_of(rs.take(k)).add,
            action_views(actions@) == outputs_of(rs.take(k)).actions,
            violation_views(found@) == outputs_of(rs.take(k)).violations,
            applied == applied_count(counted, k as nat),
        decreases rest.len(),
    {
        let mut part = rest.remove(0);
        proof {
            assert(part == rs[k]);
            assert(rs.take(k + 1).drop_last() =~= rs.take(k));
            assert(rs.take(k + 1).last() == rs[k]);
            assert(rest@ =~= rs.subrange(k + 1, rs.len() as int));
        }
        let ghost i0 = inferred@;
        let ghost a0 = actions@;
        let ghost v0 = found@;
        let ghost pa = part.triples_to_add@;
        let ghost pc = part.actions@;
        let ghost pv = part.violations@;
        inferred.append(&mut part.triples_to_add);
        actions.append(&mut part.actions);
        found.append(&mut part.violations);
        if applied < usize::MAX {
            applied = applied + 1;
        }
        proof {
            assert(triples_view(inferred@) =~= triples_view(i0) + triples_view(pa));
            assert(action_views(actions@) =~= action_views(a0) + action_views(pc));
            assert(violation_views(found@) =~= violation_views(v0) + violation_views(pv));
            let acc = outputs_of(rs.take(k));
            assert(c + (acc.add + triples_view(pa)) =~= (c + acc.add) + triples_view(pa));
            k = k + 1;
        }
    }
    proof {
        assert(rs.take(rs.len() as int) =~= rs);
    }
    let ghost before = found@;
    let mut extra = violations;
    let ghost vs = extra@;
    found.append(&mut extra);
    proof {
        assert(violation_views(found@) =~= violation_views(before) + violation_views(vs));
    }
    EngineResult {
        inferred_triples: inferred,
        actions,
        violations: found,
        stats: ProcessingStats {
            rules_applied: applied,
            triples_processed,
            execution_time_ms: 0,
            memory_used_kb: None,
        },
    }
}

/// What a run of engine `e` over triples `ts` may yield: the RDFS closure
/// of the triples (by a reasoner that knows nothing yet) where RDFS
/// inference is on, then the results gathered from the answers of the
/// engine's rules, then the violations gathered from its validation rules,
/// each part only where the options enable it.
pub open spec fn engine_run(e: ReasoningEngine, ts: Seq<TripleView>, res: EngineResult) -> bool {
    exists|closure: Seq<Triple>, rs: Seq<RuleResult>, vs: Seq<ValidationViolation>| {
        &&& engine_output(res, triples_view(closure), e.options().enable_rdfs_inference, rs, vs, ts.len())
        &&& (e.options().enable_rdfs_inference ==> exists|a: RdfsReasoner, b: RdfsReasoner|
                knows_nothing(a) && closure_step(a, b, ts, closure))
        &&& (!e.options().enable_rdfs_inference ==> closure.len() == 0)
        &&& (e.options().enable_inference ==> rs.len() <= e.registry().count_rules())
        &&& (e.options().enable_inference ==> exists|outs: Seq<Option<Result<RuleResult, RuleError>>>|
                #[trigger] rules_answered(e.registry().rule_list(), ts, outs) && gather_results(outs) == Ok::<Seq<RuleResult>, RuleError>(rs))
        &&& (e.options().enable_validation ==> exists|outs: Seq<Result<Vec<ValidationViolation>, RuleError>>|
                #[trigger] validations_answered(e.registry().validation_rule_list(), ts, outs)
                && gather_violations(outs) == Ok::<Seq<ValidationViolation>, RuleError>(vs))
        &&& (!e.options().enable_validation ==> vs.len() == 0)
        &&& (!e.options().enable_inference ==> rs.len() == 0)
        &&& (!e.options().enable_validation || e.registry().count_validation_rules() == 0 ==> vs.len() == 0)
    }
}

/// Engine `e` over triples `ts` may stop with error `x`: the answers of
/// its rules, or else of its validation rules, end in that error, where
/// the options enable them.
pub open spec fn engine_failed(e: ReasoningEngine, ts: Seq<TripleView>, x: RuleError) -> bool {
    ||| (e.options().enable_inference && exists|outs: Seq<Option<Result<RuleResult, RuleError>>>|
            #[trigger] rules_answered(e.registry().rule_list(), ts, outs) && gather_results(outs) == Err::<Seq<RuleResult>, RuleError>(x))
    ||| (e.options().enable_validation && exists|outs: Seq<Result<Vec<ValidationViolation>, RuleError>>|
            #[trigger] validations_answered(e.registry().validation_rule_list(), ts, outs)
            && gather_violations(outs) == Err::<Seq<ValidationViolation>, RuleError>(x))
}

/// Runs RDFS inference, the registered rules and validation over a store,
/// as its options say.
pub struct ReasoningEngine {
    rule_registry: RuleRegistry,
    processing_options: ProcessingOptions,
}

impl ReasoningEngine {
    /// The rules of the engine.
    pub closed spec fn registry(&self) -> RuleRegistry {
        self.rule_registry
    }

    /// The options of the engine.
    pub closed spec fn options(&self) -> ProcessingOptions {
        self.processing_options
    }

    /// An engine without rules, with the default options.
    pub fn new() -> (r: Self)
        ensures
            r.registry().count_rules() == 0,
            r.registry().count_validation_rules() == 0,
            r.registry().count_inference_rules() == 0,
            r.options().enable_rdfs_inference,
            r.options().enable_inference,
            r.options().enable_validation,
            r.options().max_iterations == 10,
            r.options().timeout_ms == Some(5000u64),
    {
        ReasoningEngine { rule_registry: RuleRegistry::new(), processing_options: ProcessingOptions::default() }
    }

    /// An engine without rules, with the given options.
    pub fn with_options(options: ProcessingOptions) -> (r: Self)
        ensures
            r.registry().count_rules() == 0,
            r.registry().count_validation_rules() == 0,
            r.registry().count_inference_rules() == 0,
            r.options() == options,
    {
        ReasoningEngine { rule_registry: RuleRegistry::new(), processing_options: options }
    }

    /// Register a rule after the others.
    pub fn register_rule(&mut self, rule: Box<dyn Rule>)
        ensures
            final(self).registry().count_rules() == old(self).registry().count_rules() + 1,
            final(self).registry().count_validation_rules() == old(self).registry().count_validation_rules(),
            final(self).options() == old(self).options(),
    {
        self.rule_registry.register_rule(rule);
    }

    /// Run over a store: the RDFS closure (by a reasoner that knows nothing
    /// yet), then every rule that applies, then validation, each where the
    /// options enable it. What the rules and validation rules return is
    /// their own; the result holds it in order. The first error of a rule
    /// stops the run; without rules to run the run succeeds.
    pub fn process(&self, store: &RdfStore) -> (r: Result<EngineResult, EngineError>)
        ensures
            match r {
                Ok(res) => engine_run(*self, store.view_triples(), res),
                Err(EngineError::RuleError(x)) => engine_failed(*self, store.view_triples(), x),
                Err(_) => false,
            },
            (!self.options().enable_inference || self.registry().count_rules() == 0)
                && (!self.options().enable_validation || self.registry().count_validation_rules() == 0) ==> r is Ok,
    {
        let start = instant_now();
        let mut closure: Vec<Triple> = Vec::new();
        let ghost mut before_r: RdfsReasoner = arbitrary();
        let ghost mut after_r: RdfsReasoner = arbitrary();
        if self.processing_options.enable_rdfs_inference {
            let mut rdfs_reasoner = RdfsReasoner::new();
            proof {
                before_r = rdfs_reasoner;
            }
            match rdfs_reasoner.compute_closure(store) {
                Ok(triples) => {
                    closure = triples;
                    proof {
                        after_r = rdfs_reasoner;
                    }
                },
                Err(e) => {
                    return Err(EngineError::RdfsError(e));
                },
            }
        }
        let ghost ts = store.view_triples();
        let mut rule_results: Vec<RuleResult> = Vec::new();
        let ghost mut rule_outs: Seq<Option<Result<RuleResult, RuleError>>> = Seq::empty();
        if self.processing_options.enable_inference {
            let applied = self.rule_registry.apply_all_rules(store);
            proof {
                rule_outs = choose|outs: Seq<Option<Result<RuleResult, RuleError>>>| #[trigger] rules_answered(self.rule_registry.rule_list(), ts, outs)
                    && results_from(applied, gather_results(outs));
                assert(rules_answered(self.registry().rule_list(), ts, rule_outs));
            }
            match applied {
                Ok(results) => {
                    rule_results = results;
                },
                Err(e) => {
                    proof {
                        assert(engine_failed(*self, ts, e));
                    }
                    return Err(EngineError::RuleError(e));
                },
            }
        }
        let mut violations: Vec<ValidationViolation> = Vec::new();
        let ghost mut check_outs: Seq<Result<Vec<ValidationViolation>, RuleError>> = Seq::empty();
        if self.processing_options.enable_validation {
            let checked = self.rule_registry.validate_all(store);
            proof {
                check_outs = choose|outs: Seq<Result<Vec<ValidationViolation>, RuleError>>| #[trigger] validations_answered(self.rule_registry.validation_rule_list(), ts, outs)
                    && violations_from(checked, gather_violations(outs));
                assert(validations_answered(self.registry().validation_rule_list(), ts, check_outs));
            }
            match checked {
                Ok(found) => {
                    violations = found;
                },
                Err(e) => {
                    proof {
                        assert(engine_failed(*self, ts, e));
                    }
                    return Err(EngineError::RuleError(e));
                },
            }
        }
        let ghost cl = closure@;
        let ghost rs = rule_results@;
        let ghost vs = violations@;
        let mut result = combine_results(closure, self.processing_options.enable_rdfs_inference, rule_results, violations, store.len());
        result.stats.execution_time_ms = millis_since(&start);
        proof {
            assert(engine_output(result, triples_view(cl), self.options().enable_rdfs_inference, rs, vs, store.view_triples().len()));
            if self.options().enable_rdfs_inference {
                assert(knows_nothing(before_r) && closure_step(before_r, after_r, store.view_triples(), cl));
            }
            if self.options().enable_inference {
                assert(rules_answered(self.registry().rule_list(), ts, rule_outs));
            }
            if self.options().enable_validation {
                assert(validations_answered(self.registry().validation_rule_list(), ts, check_outs));
            }
        }
        Ok(result)
    }

    /// The rules of the engine.
    pub fn rule_registry(&self) -> (r: &RuleRegistry)
        ensures
            *r == self.registry(),
    {
        &self.rule_registry
    }

    /// The options of the engine.
    pub fn processing_options(&self) -> (r: &ProcessingOptions)
        ensures
            *r == self.options(),
    {
        &self.processing_options
    }
}

/// The number of rules applied over results, added up to the largest
/// `usize`.
pub open spec fn total_applied(rs: Seq<EngineResult>) -> int
    decreases rs.len(),
{
    if rs.len() == 0 {
        0
    } else {
        let n = total_applied(rs.drop_last()) + rs.last().stats.rules_applied;
        if n > usize::MAX { usize::MAX as int } else { n }
    }
}

/// An engine whose run has no rule of a user to wait for.
pub open spec fn runs_alone(e: ReasoningEngine) -> bool {
    &&& (!e.options().enable_inference || e.registry().count_rules() == 0)
    &&& (!e.options().enable_validation || e.registry().count_validation_rules() == 0)
}

/// Engines run one after the other over the same store.
pub struct ReasoningPipeline {
    engines: Vec<ReasoningEngine>,
}

/// What a chain of engines yields.
#[derive(Debug)]
pub struct PipelineResult {
    pub engine_results: Vec<EngineResult>,
    pub total_stats: ProcessingStats,
}

impl ReasoningPipeline {
    /// The engines, in order.
    pub closed spec fn engines_of(&self) -> Seq<ReasoningEngine> {
        self.engines@
    }

    /// A chain without engines.
    pub fn new() -> (r: Self)
        ensures
            r.engines_of().len() == 0,
    {
        ReasoningPipeline { engines: Vec::new() }
    }

    /// Add an engine at the end.
    pub fn add_engine(&mut self, engine: ReasoningEngine)
        ensures
            final(self).engines_of() == old(self).engines_of().push(engine),
    {
        self.engines.push(engine);
    }

    /// Run every engine over the store in order; the first error stops the
    /// run. The total counts the rules applied by all engines and the
    /// triples of the store.
    pub fn execute(&self, store: &RdfStore) -> (r: Result<PipelineResult, EngineError>)
        ensures
            match r {
                Ok(res) => {
                    &&& res.engine_results@.len() == self.engines_of().len()
                    &&& forall|i: int| 0 <= i < res.engine_results@.len() ==>
                        engine_run(#[trigger] self.engines_of()[i], store.view_triples(), res.engine_results@[i])
                    &&& forall|i: int| 0 <= i < res.engine_results@.len() ==>
                        (#[trigger] res.engine_results@[i]).stats.triples_processed == store.view_triples().len()
                    &&& res.total_stats.rules_applied == total_applied(res.engine_results@)
                    &&& res.total_stats.triples_processed == store.view_triples().len()
                    &&& res.total_stats.memory_used_kb is None
                },
                Err(EngineError::RuleError(x)) => exists|i: int| 0 <= i < self.engines_of().len()
                    && engine_failed(#[trigger] self.engines_of()[i], store.view_triples(), x),
                Err(_) => false,
            },
            (forall|i: int| 0 <= i < self.engines_of().len() ==> runs_alone(#[trigger] self.engines_of()[i])) ==> r is Ok,
    {
        let start = instant_now();
        let mut results: Vec<EngineResult> = Vec::new();
        let mut i: usize = 0;
        while i < self.engines.len()
            invariant
                i <= self.engines@.len(),
                results@.len() == i,
                forall|j: int| 0 <= j < i ==> (#[trigger] results@[j]).stats.triples_processed == store.view_triples().len(),
                forall|j: int| 0 <= j < i ==> engine_run(#[trigger] self.engines@[j], store.view_triples(), results@[j]),
            decreases self.engines.len() - i,
        {
            match self.engines[i].process(store) {
                Ok(result) => {
                    results.push(result);
                },
                Err(e) => {
                    proof {
                        assert(!runs_alone(self.engines@[i as int]));
                        assert(self.engines_of()[i as int] == self.engines@[i as int]);
                    }
                    return Err(e);
                },
            }
            i += 1;
        }
        let mut total: usize = 0;
        let mut j: usize = 0;
        proof {
            assert(results@.take(0) =~= Seq::<EngineResult>::empty());
        }
        while j < results.len()
            invariant
                j <= results@.len(),
                total == total_applied(results@.take(j as int)),
            decreases results.len() - j,
        {
            proof {
                assert(results@.take(j + 1).drop_last() =~= results@.take(j as int));
                assert(results@.take(j + 1).last() == results@[j as int]);
            }
            let n = results[j].stats.rules_applied;
            if total <= usize::MAX - n {
                total = total + n;
            } else {
                total = usize::MAX;
            }
            j += 1;
        }
        proof {
            assert(results@.take(results@.len() as int) =~= results@);
        }
        let elapsed = millis_since(&start);
        Ok(PipelineResult {
            engine_results: results,
            total_stats: ProcessingStats {
                rules_applied: total,
                triples_processed: store.len(),
                execution_time_ms: elapsed,
                memory_used_kb: None,
            },
        })
    }
}

impl Default for ReasoningEngine {
    fn default() -> (r: Self)
        ensures
            r.registry().count_rules() == 0,
            r.registry().count_validation_rules() == 0,
            r.options().enable_rdfs_inference,
            r.options().enable_inference,
            r.options().enable_validation,
    {
        ReasoningEngine::new()
    }
}

impl Default for ReasoningPipeline {
    fn default() -> (r: Self)
        ensures
            r.engines_of().len() == 0,
    {
        ReasoningPipeline::new()
    }
}

} // verus!
