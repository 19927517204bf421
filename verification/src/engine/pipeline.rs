//! Processing pipelines: stages that run reasoners and, by the outcome,
//! name the stages to run next.

use vstd::prelude::*;
use crate::closure::{node_views, GraphNode};
use crate::nodeset::copy_nodes;
use crate::engine::{PipelineStage, PipelineEngine, PipelineCondition, PipelineError};
use crate::engine::orchestration::EngineResult;
use crate::outside::current_rfc3339;
use crate::rdf_store::RdfStore;
use crate::text::join;

verus! {

/// The record of one stage run.
#[derive(Debug)]
pub struct PipelineExecution {
    pub stage_name: String,
    /// When the stage started, in RFC 3339 form
    pub started_at: String,
    /// When the stage ended, in RFC 3339 form
    pub completed_at: Option<String>,
    pub result: Option<EngineResult>,
    pub error: Option<String>,
    pub next_stages: Vec<String>,
}

/// A stage run as a value, but for its times and its result.
pub struct ExecutionV {
    pub stage_name: Seq<char>,
    pub succeeded: bool,
    pub error: Option<Seq<char>>,
    pub next_stages: Seq<Seq<char>>,
}

/// The value of a stage run.
pub open spec fn execution_view(e: PipelineExecution) -> ExecutionV {
    ExecutionV {
        stage_name: e.stage_name@,
        succeeded: e.result is Some,
        error: match e.error { Some(m) => Some(m@), None => None },
        next_stages: node_views(e.next_stages@),
    }
}

/// The values of a list of stage runs.
pub open spec fn executions_view(s: Seq<PipelineExecution>) -> Seq<ExecutionV> {
    s.map_values(|e: PipelineExecution| execution_view(e))
}

/// What a pipeline run yields.
#[derive(Debug)]
pub struct PipelineResult {
    pub stage_results: Vec<EngineResult>,
    pub execution_history: Vec<PipelineExecution>,
}

/// The name of the reasoner of a stage, as its error names it.
pub open spec fn engine_label(e: PipelineEngine) -> Seq<char> {
    match e {
        PipelineEngine::Rdfs => "RDFS"@,
        PipelineEngine::OwlLite => "OWL Lite"@,
        PipelineEngine::OwlDl => "OWL DL"@,
        PipelineEngine::Custom(name) => "Custom: "@ + name@,
    }
}

/// The run of a stage: no reasoner is built for a stage yet, so every run
/// fails with "Engine not implemented" and names no next stage.
pub open spec fn stage_outcome(st: PipelineStage) -> ExecutionV {
    ExecutionV {
        stage_name: st.name@,
        succeeded: false,
        error: Some("Engine not implemented: "@ + engine_label(st.engine)),
        next_stages: Seq::empty(),
    }
}

/// Whether the conditions let a stage run on a store of `n` triples, read
/// in order: a custom condition lets it run whatever follows.
pub open spec fn conditions_hold(cs: Seq<PipelineCondition>, n: int) -> bool
    decreases cs.len(),
{
    if cs.len() == 0 {
        true
    } else {
        match cs[0] {
            PipelineCondition::MinTriples(min) => n >= min && conditions_hold(cs.drop_first(), n),
            PipelineCondition::MaxTriples(max) => n <= max && conditions_hold(cs.drop_first(), n),
            PipelineCondition::HasViolations(expected) => !expected && conditions_hold(cs.drop_first(), n),
            PipelineCondition::Custom(_) => true,
        }
    }
}

/// The stages of a list by name: a later stage of a name replaces an
/// earlier one.
pub open spec fn stage_map(s: Seq<PipelineStage>) -> Map<Seq<char>, PipelineStage>
    decreases s.len(),
{
    if s.len() == 0 {
        Map::empty()
    } else {
        stage_map(s.drop_last()).insert(s.last().name@, s.last())
    }
}

/// No two stages of the list have the same name.
pub open spec fn names_distinct(s: Seq<PipelineStage>) -> bool {
    forall|i: int, j: int| 0 <= i < j < s.len() ==> (#[trigger] s[i]).name@ != (#[trigger] s[j]).name@
}

/// One round: the stages named in `front` in order. Each one that exists
/// and whose conditions hold runs; its failure stages join the next round.
/// The runs, and the next round or the first name without a stage.
pub open spec fn run_round(stages: Map<Seq<char>, PipelineStage>, n: int, front: Seq<Seq<char>>) -> (Seq<ExecutionV>, Result<Seq<Seq<char>>, Seq<char>>)
    decreases front.len(),
{
    if front.len() == 0 {
        (Seq::empty(), Ok(Seq::empty()))
    } else {
        let (h, r) = run_round(stages, n, front.drop_last());
        match r {
            Err(m) => (h, Err(m)),
            Ok(next) => {
                let name = front.last();
                if !stages.dom().contains(name) {
                    (h, Err(name))
                } else if !conditions_hold(stages[name].conditions@, n) {
                    (h, Ok(next))
                } else {
                    let st = stages[name];
                    let e = stage_outcome(st);
                    (h.push(e), Ok(next + if e.succeeded { e.next_stages } else { node_views(st.on_failure@) }))
                }
            },
        }
    }
}

/// How a pipeline run ends.
pub enum RunEnd {
    /// No stage is left to run.
    Finished,
    /// A stage of this name does not exist.
    Missing(Seq<char>),
    /// Failing stages name each other in a cycle, so the rounds would never end.
    Cycle,
}

/// The rounds from `front` on, with `fuel` more rounds after this one: the
/// runs and how the rounds end. With as many rounds as there are stages,
/// every stage that can be reached has been reached, so stages still left
/// after them go round a cycle.
pub open spec fn run_pipeline(stages: Map<Seq<char>, PipelineStage>, n: int, front: Seq<Seq<char>>, fuel: nat) -> (Seq<ExecutionV>, RunEnd)
    decreases fuel,
{
    if front.len() == 0 {
        (Seq::empty(), RunEnd::Finished)
    } else {
        let (h, r) = run_round(stages, n, front);
        match r {
            Err(m) => (h, RunEnd::Missing(m)),
            Ok(next) => if next.len() == 0 {
                (h, RunEnd::Finished)
            } else if fuel == 0 {
                (h, RunEnd::Cycle)
            } else {
                let (h2, end) = run_pipeline(stages, n, next, (fuel - 1) as nat);
                (h + h2, end)
            },
        }
    }
}

/// The message of a run whose failing stages go round a cycle.
pub open spec fn cycle_message() -> Seq<char> {
    "failing stages name each other in a cycle"@
}

/// A stage of a list is the stage of its name.
proof fn lemma_stage_map_at(s: Seq<PipelineStage>, i: int)
    requires
        names_distinct(s),
        0 <= i < s.len(),
    ensures
        stage_map(s).dom().contains(s[i].name@),
        stage_map(s)[s[i].name@] == s[i],
    decreases s.len(),
{
    if i < s.len() - 1 {
        lemma_stage_map_at(s.drop_last(), i);
        assert(s.drop_last()[i] == s[i]);
        assert(s[i].name@ != s[s.len() - 1].name@);
    }
}

/// The names of the map are those of the list.
proof fn lemma_stage_map_dom(s: Seq<PipelineStage>, name: Seq<char>)
    ensures
        stage_map(s).dom().contains(name) <==> exists|i: int| 0 <= i < s.len() && (#[trigger] s[i]).name@ == name,
    decreases s.len(),
{
    if s.len() > 0 {
        lemma_stage_map_dom(s.drop_last(), name);
        if stage_map(s).dom().contains(name) && name != s.last().name@ {
            let i = choose|i: int| 0 <= i < s.len() - 1 && (#[trigger] s.drop_last()[i]).name@ == name;
            assert(s[i] == s.drop_last()[i]);
        }
        if exists|i: int| 0 <= i < s.len() && (#[trigger] s[i]).name@ == name {
            let i = choose|i: int| 0 <= i < s.len() && (#[trigger] s[i]).name@ == name;
            if i < s.len() - 1 {
                assert(s.drop_last()[i] == s[i]);
            }
        }
    }
}

/// Replacing a stage by one of the same name replaces it in the map.
proof fn lemma_stage_map_update(s: Seq<PipelineStage>, i: int, st: PipelineStage)
    requires
        names_distinct(s),
        0 <= i < s.len(),
        s[i].name@ == st.name@,
    ensures
        names_distinct(s.update(i, st)),
        stage_map(s.update(i, st)) == stage_map(s).insert(st.name@, st),
{
    let u = s.update(i, st);
    assert(names_distinct(u)) by {
        assert forall|a: int, b: int| 0 <= a < b < u.len() implies (#[trigger] u[a]).name@ != (#[trigger] u[b]).name@ by {
            assert(s[a].name@ != s[b].name@);
        }
    }
    let m1 = stage_map(u);
    let m2 = stage_map(s).insert(st.name@, st);
    assert forall|k: Seq<char>| #[trigger] m1.dom().contains(k) <==> m2.dom().contains(k) by {
        lemma_stage_map_dom(u, k);
        lemma_stage_map_dom(s, k);
        if k == st.name@ {
            assert(u[i].name@ == k);
            assert(s[i].name@ == k);
        }
        if m2.dom().contains(k) && k != st.name@ {
            let j = choose|j: int| 0 <= j < s.len() && (#[trigger] s[j]).name@ == k;
            assert(j != i);
            assert(u[j] == s[j]);
            assert(u[j].name@ == k);
        }
        if m1.dom().contains(k) {
            let j = choose|j: int| 0 <= j < u.len() && (#[trigger] u[j]).name@ == k;
            if j != i {
                assert(u[j] == s[j]);
                assert(s[j].name@ == k);
            }
        }
    }
    assert forall|k: Seq<char>| m1.dom().contains(k) implies m1[k] == m2[k] by {
        lemma_stage_map_dom(u, k);
        let j = choose|j: int| 0 <= j < u.len() && (#[trigger] u[j]).name@ == k;
        lemma_stage_map_at(u, j);
        if j != i {
            lemma_stage_map_at(s, j);
        }
    }
    assert(m1 =~= m2);
}

/// Stages, each name once.
#[derive(Debug)]
struct StageTable {
    stages: Vec<PipelineStage>,
}

impl StageTable {
    /// Each stage name stands once.
    #[verifier::type_invariant]
    spec fn names_once(&self) -> bool {
        names_distinct(self.stages@)
    }

    /// Add a stage; one of the same name is replaced.
    fn insert(&mut self, stage: PipelineStage)
        ensures
            stage_map(final(self).stages@) == stage_map(old(self).stages@).insert(stage.name@, stage),
            final(self).stages@.len() == old(self).stages@.len() + if stage_map(old(self).stages@).dom().contains(stage.name@) { 0int } else { 1int },
    {
        proof {
            use_type_invariant(&*self);
        }
        let ghost s0 = self.stages@;
        let mut stages: Vec<PipelineStage> = Vec::new();
        std::mem::swap(&mut stages, &mut self.stages);
        let mut i: usize = 0;
        while i < stages.len()
            invariant
                i <= stages@.len(),
                stages@ == s0,
                s0 == old(self).stages@,
                names_distinct(s0),
                forall|j: int| 0 <= j < i ==> (#[trigger] s0[j]).name@ != stage.name@,
            decreases stages.len() - i,
        {
            if stages[i].name == stage.name {
                proof {
                    lemma_stage_map_update(s0, i as int, stage);
                    lemma_stage_map_dom(s0, stage.name@);
                }
                stages.set(i, stage);
                proof {
                    assert(stages@ == s0.update(i as int, stage));
                    assert(stage_map(old(self).stages@) == stage_map(s0));
                }
                self.stages = stages;
                return;
            }
            i += 1;
        }
        proof {
            lemma_stage_map_dom(s0, stage.name@);
            assert(s0.push(stage).drop_last() =~= s0);
            assert(names_distinct(s0.push(stage))) by {
                let t = s0.push(stage);
                assert forall|a: int, b: int| 0 <= a < b < t.len() implies (#[trigger] t[a]).name@ != (#[trigger] t[b]).name@ by {
                    if b == t.len() - 1 {
                        assert(s0[a].name@ != stage.name@);
                    }
                }
            }
        }
        stages.push(stage);
        self.stages = stages;
    }
}

/// A pipeline of stages with an entry point and the record of its runs.
#[derive(Debug)]
pub struct ProcessingPipeline {
    table: StageTable,
    current_stage: Option<String>,
    execution_history: Vec<PipelineExecution>,
}

/// A copy of a stage run.
fn copy_execution(e: &PipelineExecution) -> (r: PipelineExecution)
    ensures
        execution_view(r) == execution_view(*e),
{
    let next_stages = copy_nodes(&e.next_stages);
    PipelineExecution {
        stage_name: e.stage_name.clone(),
        started_at: e.started_at.clone(),
        completed_at: match &e.completed_at { Some(t) => Some(t.clone()), None => None },
        result: match &e.result { Some(res) => Some(res.clone()), None => None },
        error: match &e.error { Some(m) => Some(m.clone()), None => None },
        next_stages,
    }
}

impl ProcessingPipeline {
    /// The stages by name.
    pub closed spec fn stages_view(&self) -> Map<Seq<char>, PipelineStage> {
        stage_map(self.table.stages@)
    }

    /// The number of stages.
    pub closed spec fn stage_count(&self) -> nat {
        self.table.stages@.len()
    }

    /// The entry point, if one is set.
    pub closed spec fn entry(&self) -> Option<Seq<char>> {
        match self.current_stage { Some(s) => Some(s@), None => None }
    }

    /// The runs so far.
    pub closed spec fn history(&self) -> Seq<ExecutionV> {
        executions_view(self.execution_history@)
    }

    /// A pipeline without stages, entry point or runs.
    pub fn new() -> (r: Self)
        ensures
            r.stages_view() == Map::<Seq<char>, PipelineStage>::empty(),
            r.stage_count() == 0,
            r.entry() is None,
            r.history() == Seq::<ExecutionV>::empty(),
    {
        let r = ProcessingPipeline { table: StageTable { stages: Vec::new() }, current_stage: None, execution_history: Vec::new() };
        proof {
            assert(executions_view(r.execution_history@) =~= Seq::<ExecutionV>::empty());
        }
        r
    }

    /// Add a stage; one of the same name is replaced.
    pub fn add_stage(&mut self, stage: PipelineStage)
        ensures
            final(self).stages_view() == old(self).stages_view().insert(stage.name@, stage),
            final(self).stage_count() == old(self).stage_count() + if old(self).stages_view().dom().contains(stage.name@) { 0int } else { 1int },
            final(self).entry() == old(self).entry(),
            final(self).history() == old(self).history(),
    {
        self.table.insert(stage);
    }

    /// Set the stage to start from.
    pub fn set_entry_point(&mut self, stage_name: String)
        ensures
            final(self).entry() == Some(stage_name@),
            final(self).stages_view() == old(self).stages_view(),
            final(self).stage_count() == old(self).stage_count(),
            final(self).history() == old(self).history(),
    {
        self.current_stage = Some(stage_name);
    }

    /// The runs so far.
    pub fn execution_history(&self) -> (r: &[PipelineExecution])
        ensures
            executions_view(r@) == self.history(),
    {
        self.execution_history.as_slice()
    }

    /// The stages, each name once.
    pub fn stages(&self) -> (r: &Vec<PipelineStage>)
        ensures
            stage_map(r@) == self.stages_view(),
            names_distinct(r@),
            r@.len() == self.stage_count(),
    {
        proof {
            use_type_invariant(&self.table);
        }
        &self.table.stages
    }

    /// Whether the conditions let a stage run on the store.
    fn check_conditions(&self, conditions: &[PipelineCondition], store: &RdfStore) -> (r: bool)
        ensures
            r == conditions_hold(conditions@, store.view_triples().len() as int),
    {
        let n = store.len();
        let mut i: usize = 0;
        proof {
            assert(conditions@.skip(0) =~= conditions@);
        }
        while i < conditions.len()
            invariant
                i <= conditions@.len(),
                n == store.view_triples().len(),
                conditions_hold(conditions@, n as int) == conditions_hold(conditions@.skip(i as int), n as int),
            decreases conditions.len() - i,
        {
            proof {
                assert(conditions@.skip(i as int).drop_first() =~= conditions@.skip(i + 1));
                assert(conditions@.skip(i as int)[0] == conditions@[i as int]);
            }
            match &conditions[i] {
                PipelineCondition::MinTriples(min) => {
                    if n < *min {
                        return false;
                    }
                },
                PipelineCondition::MaxTriples(max) => {
                    if n > *max {
                        return false;
                    }
                },
                PipelineCondition::HasViolations(expected) => {
                    if *expected {
                        return false;
                    }
                },
                PipelineCondition::Custom(_) => {
                    return true;
                },
            }
            i += 1;
        }
        proof {
            assert(conditions@.skip(i as int).len() == 0);
        }
        true
    }

    /// Run a stage. No reasoner is built for a stage yet: the run fails with
    /// "Engine not implemented" and the name of the reasoner.
    fn execute_stage(&self, stage: &PipelineStage, store: &RdfStore) -> (r: PipelineExecution)
        ensures
            execution_view(r) == stage_outcome(*stage),
    {
        let started_at = current_rfc3339();
        let mut execution = PipelineExecution {
            stage_name: stage.name.clone(),
            started_at,
            completed_at: None,
            result: None,
            error: None,
            next_stages: Vec::new(),
        };
        let engine_result: Result<EngineResult, PipelineError> = match &stage.engine {
            PipelineEngine::Rdfs => Err(PipelineError::EngineNotImplemented("RDFS".to_string())),
            PipelineEngine::OwlLite => Err(PipelineError::EngineNotImplemented("OWL Lite".to_string())),
            PipelineEngine::OwlDl => Err(PipelineError::EngineNotImplemented("OWL DL".to_string())),
            PipelineEngine::Custom(name) => Err(PipelineError::EngineNotImplemented(join("Custom: ", name.as_str()))),
        };
        execution.completed_at = Some(current_rfc3339());
        match engine_result {
            Ok(result) => {
                execution.result = Some(result);
                execution.next_stages = copy_nodes(&stage.on_success);
            },
            Err(e) => {
                execution.error = Some(e.to_string());
            },
        }
        proof {
            assert(node_views(execution.next_stages@) =~= Seq::<Seq<char>>::empty());
        }
        execution
    }

    /// The position of the stage of a name.
    fn find_stage(&self, name: &String) -> (r: Option<usize>)
        ensures
            match r {
                Some(k) => k < self.table.stages@.len() && self.table.stages@[k as int].name@ == name@,
                None => forall|j: int| 0 <= j < self.table.stages@.len() ==> (#[trigger] self.table.stages@[j]).name@ != name@,
            },
    {
        let mut k: usize = 0;
        while k < self.table.stages.len()
            invariant
                k <= self.table.stages@.len(),
                forall|j: int| 0 <= j < k ==> (#[trigger] self.table.stages@[j]).name@ != name@,
            decreases self.table.stages.len() - k,
        {
            if self.table.stages[k].name == *name {
                return Some(k);
            }
            k += 1;
        }
        None
    }

    /// Run the pipeline from its entry point, round by round: each round
    /// runs the stages the last one named, in order, skipping those whose
    /// conditions do not hold; a failed stage names its failure stages for
    /// the next round. The runs are added to the history, also when a run
    /// stops at a name without a stage. Failing stages that name each other
    /// in a cycle would make the rounds go on for ever; such a run stops
    /// with an execution error instead.
    pub fn execute(&mut self, store: &RdfStore) -> (r: Result<PipelineResult, PipelineError>)
        ensures
            final(self).stages_view() == old(self).stages_view(),
            final(self).stage_count() == old(self).stage_count(),
            final(self).entry() == old(self).entry(),
            match old(self).entry() {
                None => r matches Err(PipelineError::NoEntryPoint) && final(self).history() == old(self).history(),
                Some(entry) => {
                    let (h, end) = run_pipeline(old(self).stages_view(), store.view_triples().len() as int, seq![entry], old(self).stage_count());
                    &&& final(self).history() == old(self).history() + h
                    &&& match end {
                        RunEnd::Finished => r matches Ok(res) && res.stage_results@.len() == 0
                            && executions_view(res.execution_history@) == final(self).history(),
                        RunEnd::Missing(m) => r matches Err(PipelineError::StageNotFound(name)) && name@ == m,
                        RunEnd::Cycle => r matches Err(PipelineError::ExecutionError(msg)) && msg@ == cycle_message(),
                    }
                },
            },
    {
        proof {
            use_type_invariant(&self.table);
        }
        let entry = match &self.current_stage {
            Some(stage) => stage.clone(),
            None => return Err(PipelineError::NoEntryPoint),
        };
        let ghost stages = self.stages_view();
        let ghost n = store.view_triples().len() as int;
        let ghost h0 = self.history();
        let ghost entry_name = entry@;
        proof {
            assert(old(self).entry() == Some(entry_name));
        }
        let ghost total = run_pipeline(stages, n, seq![entry@], self.stage_count());
        let mut results: Vec<EngineResult> = Vec::new();
        let mut current: Vec<String> = Vec::new();
        current.push(entry);
        let mut left: usize = self.table.stages.len();
        let ghost mut done: Seq<ExecutionV> = Seq::empty();
        proof {
            assert(node_views(current@) =~= seq![entry@]);
            assert(h0 + done =~= h0);
            assert(done + total.0 =~= total.0);
        }
        loop
            invariant_except_break
                node_views(current@).len() > 0,
                self.history() == h0 + done,
                total.0 == done + run_pipeline(stages, n, node_views(current@), left as nat).0,
                total.1 == run_pipeline(stages, n, node_views(current@), left as nat).1,
            invariant
                stages == self.stages_view(),
                names_distinct(self.table.stages@),
                n == store.view_triples().len() as int,
                results@.len() == 0,
                self.stage_count() == old(self).stage_count(),
                self.entry() == old(self).entry(),
                stages == old(self).stages_view(),
                h0 == old(self).history(),
                total == run_pipeline(stages, n, seq![entry_name], old(self).stage_count()),
                old(self).entry() == Some(entry_name),
            ensures
                self.history() == h0 + total.0,
                total.1 is Finished,
                results@.len() == 0,
                self.stage_count() == old(self).stage_count(),
                self.entry() == old(self).entry(),
                stages == self.stages_view(),
            decreases left,
        {
            let ghost front = node_views(current@);
            let ghost before = self.history();
            let ghost mut round_h: Seq<ExecutionV> = Seq::empty();
            let mut next: Vec<String> = Vec::new();
            let mut i: usize = 0;
            proof {
                assert(front.take(0) =~= Seq::<Seq<char>>::empty());
                assert(node_views(next@) =~= Seq::<Seq<char>>::empty());
                assert(before + round_h =~= before);
            }
            while i < current.len()
                invariant
                    i <= current@.len(),
                    front == node_views(current@),
                    stages == self.stages_view(),
                    names_distinct(self.table.stages@),
                    n == store.view_triples().len() as int,
                    results@.len() == 0,
                    run_round(stages, n, front.take(i as int)) == (round_h, Ok::<Seq<Seq<char>>, Seq<char>>(node_views(next@))),
                    self.history() == before + round_h,
                    self.stage_count() == old(self).stage_count(),
                    self.entry() == old(self).entry(),
                    stages == old(self).stages_view(),
                    h0 == old(self).history(),
                    before == h0 + done,
                    front.len() > 0,
                    total.0 == done + run_pipeline(stages, n, front, left as nat).0,
                    total.1 == run_pipeline(stages, n, front, left as nat).1,
                    total == run_pipeline(stages, n, seq![entry_name], old(self).stage_count()),
                    old(self).entry() == Some(entry_name),
                decreases current.len() - i,
            {
                proof {
                    assert(front.take(i + 1).drop_last() =~= front.take(i as int));
                    assert(front.take(i + 1).last() == current@[i as int]@);
                }
                let stage_name = &current[i];
                let found = self.find_stage(stage_name);
                let k = match found {
                    Some(k) => k,
                    None => {
                        proof {
                            lemma_stage_map_dom(self.table.stages@, stage_name@);
                            lemma_round_stops(stages, n, front, i as int + 1);
                            assert(h0 + (done + round_h) =~= (h0 + done) + round_h);
                            assert(run_round(stages, n, front) == (round_h, Err::<Seq<Seq<char>>, Seq<char>>(stage_name@)));
                            assert(run_pipeline(stages, n, front, left as nat).0 == round_h);
                            assert(total.0 == done + round_h);
                            assert(self.history() == old(self).history() + total.0);
                            assert(total.1 == RunEnd::Missing(stage_name@));
                        }
                        return Err(PipelineError::StageNotFound(stage_name.clone()));
                    },
                };
                proof {
                    lemma_stage_map_at(self.table.stages@, k as int);
                }
                let stage = &self.table.stages[k];
                if self.check_conditions(stage.conditions.as_slice(), store) {
                    let execution = self.execute_stage(stage, store);
                    let record = copy_execution(&execution);
                    let ghost hist_before = self.execution_history@;
                    self.execution_history.push(record);
                    proof {
                        assert(executions_view(self.execution_history@) =~= executions_view(hist_before).push(execution_view(execution)));
                        assert(before + round_h.push(execution_view(execution)) =~= (before + round_h).push(execution_view(execution)));
                        round_h = round_h.push(execution_view(execution));
                    }
                    match execution.result {
                        Some(result) => {
                            results.push(result);
                            let mut more = copy_nodes(&execution.next_stages);
                            next.append(&mut more);
                        },
                        None => {
                            let ghost nb = next@;
                            if stage.on_failure.len() > 0 {
                                let mut more = copy_nodes(&stage.on_failure);
                                next.append(&mut more);
                                proof {
                                    assert(node_views(next@) =~= node_views(nb) + node_views(stage.on_failure@));
                                }
                            } else {
                                proof {
                                    assert(node_views(nb) + node_views(stage.on_failure@) =~= node_views(nb));
                                }
                            }
                        },
                    }
                }
                i += 1;
            }
            proof {
                assert(front.take(current@.len() as int) =~= front);
            }
            if next.len() == 0 {
                proof {
                    assert(node_views(next@) =~= Seq::<Seq<char>>::empty());
                    assert(done + round_h =~= done + round_h);
                    assert(h0 + (done + round_h) =~= (h0 + done) + round_h);
                }
                break;
            }
            if left == 0 {
                proof {
                    assert(h0 + (done + round_h) =~= (h0 + done) + round_h);
                    assert(run_round(stages, n, front) == (round_h, Ok::<Seq<Seq<char>>, Seq<char>>(node_views(next@))));
                    assert(node_views(next@).len() > 0);
                    assert(run_pipeline(stages, n, front, left as nat).0 == round_h);
                    assert(total.0 == done + round_h);
                    assert(self.history() == old(self).history() + total.0);
                    assert(total.1 is Cycle);
                }
                let msg = "failing stages name each other in a cycle".to_string();
                proof {
                    assert(msg@ == cycle_message());
                }
                return Err(PipelineError::ExecutionError(msg));
            }
            left -= 1;
            proof {
                let tail = run_pipeline(stages, n, node_views(next@), left as nat);
                assert(done + (round_h + tail.0) =~= (done + round_h) + tail.0);
                assert(h0 + (done + round_h) =~= (h0 + done) + round_h);
                done = done + round_h;
            }
            current = next;
        }
        let mut history: Vec<PipelineExecution> = Vec::new();
        let mut j: usize = 0;
        proof {
            assert(executions_view(history@) =~= executions_view(self.execution_history@.take(0)));
        }
        while j < self.execution_history.len()
            invariant
                j <= self.execution_history@.len(),
                executions_view(history@) == executions_view(self.execution_history@.take(j as int)),
            decreases self.execution_history.len() - j,
        {
            let ghost hb = history@;
            history.push(copy_execution(&self.execution_history[j]));
            proof {
                assert(executions_view(history@) =~= executions_view(hb).push(execution_view(self.execution_history@[j as int])));
                assert(self.execution_history@.take(j + 1) =~= self.execution_history@.take(j as int).push(self.execution_history@[j as int]));
                assert(executions_view(self.execution_history@.take(j + 1)) =~= executions_view(self.execution_history@.take(j as int)).push(execution_view(self.execution_history@[j as int])));
            }
            j += 1;
        }
        proof {
            assert(self.execution_history@.take(self.execution_history@.len() as int) =~= self.execution_history@);
        }
        Ok(PipelineResult { stage_results: results, execution_history: history })
    }
}

/// Once a round meets a name without a stage, its later names do not
/// change its outcome.
proof fn lemma_round_stops(stages: Map<Seq<char>, PipelineStage>, n: int, front: Seq<Seq<char>>, k: int)
    requires
        0 <= k <= front.len(),
        run_round(stages, n, front.take(k)).1 is Err,
    ensures
        run_round(stages, n, front) == run_round(stages, n, front.take(k)),
    decreases front.len() - k,
{
    if k < front.len() {
        assert(front.take(k + 1).drop_last() =~= front.take(k));
        lemma_round_stops(stages, n, front, k + 1);
    } else {
        assert(front.take(k) =~= front);
    }
}

/// Builds a pipeline stage by stage.
#[derive(Debug)]
pub struct PipelineBuilder {
    pipeline: ProcessingPipeline,
}

/// A stage with no conditions and no next stages.
fn plain_stage(name: &str, description: &str, engine: PipelineEngine) -> (r: PipelineStage)
    ensures
        r.name@ == name@,
        r.description@ == description@,
        r.engine == engine,
        r.conditions@.len() == 0,
        r.on_success@.len() == 0,
        r.on_failure@.len() == 0,
{
    PipelineStage {
        name: name.to_string(),
        description: description.to_string(),
        engine,
        conditions: Vec::new(),
        on_success: Vec::new(),
        on_failure: Vec::new(),
    }
}

/// The stage a builder adds under `name`.
pub open spec fn built_stage(st: PipelineStage, name: Seq<char>, description: Seq<char>, engine: PipelineEngine) -> bool {
    &&& st.name@ == name
    &&& st.description@ == description
    &&& st.engine == engine
    &&& st.conditions@.len() == 0
    &&& st.on_success@.len() == 0
    &&& st.on_failure@.len() == 0
}

impl PipelineBuilder {
    /// The pipeline built so far.
    pub closed spec fn pipeline_of(&self) -> ProcessingPipeline {
        self.pipeline
    }

    /// A builder of an empty pipeline.
    pub fn new() -> (r: Self)
        ensures
            r.pipeline_of().stages_view() == Map::<Seq<char>, PipelineStage>::empty(),
            r.pipeline_of().entry() is None,
            r.pipeline_of().history() == Seq::<ExecutionV>::empty(),
    {
        PipelineBuilder { pipeline: ProcessingPipeline::new() }
    }

    /// Add a stage that runs the RDFS reasoner.
    pub fn add_rdfs_stage(self, name: &str, description: &str) -> (r: Self)
        ensures
            r.pipeline_of().stages_view().dom() == self.pipeline_of().stages_view().dom().insert(name@),
            built_stage(r.pipeline_of().stages_view()[name@], name@, description@, PipelineEngine::Rdfs),
            forall|k: Seq<char>| k != name@ && #[trigger] self.pipeline_of().stages_view().dom().contains(k)
                ==> r.pipeline_of().stages_view()[k] == self.pipeline_of().stages_view()[k],
            r.pipeline_of().entry() == self.pipeline_of().entry(),
    {
        let mut s = self;
        s.pipeline.add_stage(plain_stage(name, description, PipelineEngine::Rdfs));
        s
    }

    /// Add a stage that runs the OWL Lite reasoner.
    pub fn add_owl_lite_stage(self, name: &str, description: &str) -> (r: Self)
        ensures
            r.pipeline_of().stages_view().dom() == self.pipeline_of().stages_view().dom().insert(name@),
            built_stage(r.pipeline_of().stages_view()[name@], name@, description@, PipelineEngine::OwlLite),
            forall|k: Seq<char>| k != name@ && #[trigger] self.pipeline_of().stages_view().dom().contains(k)
                ==> r.pipeline_of().stages_view()[k] == self.pipeline_of().stages_view()[k],
            r.pipeline_of().entry() == self.pipeline_of().entry(),
    {
        let mut s = self;
        s.pipeline.add_stage(plain_stage(name, description, PipelineEngine::OwlLite));
        s
    }

    /// Add a stage that runs the OWL DL reasoner.
    pub fn add_owl_dl_stage(self, name: &str, description: &str) -> (r: Self)
        ensures
            r.pipeline_of().stages_view().dom() == self.pipeline_of().stages_view().dom().insert(name@),
            built_stage(r.pipeline_of().stages_view()[name@], name@, description@, PipelineEngine::OwlDl),
            forall|k: Seq<char>| k != name@ && #[trigger] self.pipeline_of().stages_view().dom().contains(k)
                ==> r.pipeline_of().stages_view()[k] == self.pipeline_of().stages_view()[k],
            r.pipeline_of().entry() == self.pipeline_of().entry(),
    {
        let mut s = self;
        s.pipeline.add_stage(plain_stage(name, description, PipelineEngine::OwlDl));
        s
    }

    /// Start the pipeline at the named stage.
    pub fn entry_point(self, stage_name: &str) -> (r: Self)
        ensures
            r.pipeline_of().entry() == Some(stage_name@),
            r.pipeline_of().stages_view() == self.pipeline_of().stages_view(),
    {
        let mut s = self;
        s.pipeline.set_entry_point(stage_name.to_string());
        s
    }

    /// The pipeline.
    pub fn build(self) -> (r: ProcessingPipeline)
        ensures
            r.stages_view() == self.pipeline_of().stages_view(),
            r.entry() == self.pipeline_of().entry(),
            r.history() == self.pipeline_of().history(),
    {
        self.pipeline
    }
}

impl Default for ProcessingPipeline {
    fn default() -> (r: Self)
        ensures
            r.stages_view() == Map::<Seq<char>, PipelineStage>::empty(),
            r.entry() is None,
            r.history() == Seq::<ExecutionV>::empty(),
    {
        ProcessingPipeline::new()
    }
}

impl Default for PipelineBuilder {
    fn default() -> (r: Self)
        ensures
            r.pipeline_of().stages_view() == Map::<Seq<char>, PipelineStage>::empty(),
            r.pipeline_of().entry() is None,
    {
        PipelineBuilder::new()
    }
}

} // verus!
