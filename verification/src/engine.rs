//! Engine settings and errors, processing pipelines and the distribution of
//! work over workers.

pub mod pipeline;
pub mod orchestration;

use vstd::prelude::*;
use vstd::string::StringExecFns;
use crate::outside::error_message;
use crate::rdfs::{RdfsConfig, RdfsError};
use crate::rules::RuleError;
use crate::text::{decimal, decimal_spec, join, usize_to_u64, signed_decimal, signed_decimal_spec, bool_to_string, bool_text};
use crate::model::{CyberEvent, Triple, TripleView, triples_view, SecurityAction, InferenceRule};
use crate::rdf_store::RdfStore;
use crate::cyber::patterns::action_views;
use orchestration::{ReasoningEngine, EngineResult, engine_run, runs_alone};

verus! {

/// Errors of the reasoning engine.
#[derive(Debug)]
pub enum ReasonerError {
    GraphError(anyhow::Error),
    RuleError(String),
    ReasoningError(String),
    StoreError(String),
}

/// Counters of one processing run.
#[derive(Debug, Clone)]
pub struct ProcessingStats {
    pub rules_applied: usize,
    pub triples_processed: usize,
    pub execution_time_ms: u64,
    pub memory_used_kb: Option<usize>,
}

/// Settings of a processing run.
#[derive(Debug, Clone)]
pub struct ProcessingOptions {
    pub max_iterations: usize,
    pub enable_validation: bool,
    pub enable_inference: bool,
    pub enable_rdfs_inference: bool,
    pub timeout_ms: Option<u64>,
    pub rdfs_config: RdfsConfig,
}

impl Default for ProcessingOptions {
    fn default() -> (r: Self)
        ensures
            r.max_iterations == 10,
            r.enable_validation,
            r.enable_inference,
            r.enable_rdfs_inference,
            r.timeout_ms == Some(5000u64),
            r.rdfs_config.max_iterations == 1000,
            r.rdfs_config.timeout_ms == 30000,
    {
        ProcessingOptions {
            max_iterations: 10,
            enable_validation: true,
            enable_inference: true,
            enable_rdfs_inference: true,
            timeout_ms: Some(5000),
            rdfs_config: RdfsConfig::default(),
        }
    }
}

/// Errors of the orchestrating engine.
#[derive(Debug)]
pub enum EngineError {
    RuleError(RuleError),
    RdfsError(RdfsError),
    TimeoutError(u64),
    IterationLimitError(usize),
    InternalError(String),
}

impl EngineError {
    /// The error message: a prefix naming the kind of error, then what it
    /// carries. After the prefix, a rule error gives its own message.
    pub fn to_string(&self) -> (r: String)
        ensures
            match self {
                EngineError::RuleError(e) => r@.subrange(0, "Rule execution failed: "@.len() as int) == "Rule execution failed: "@
                    && (crate::rules::rule_error_message(*e) matches Some(t) ==> r@ == "Rule execution failed: "@ + t),
                EngineError::RdfsError(e) => r@ == "RDFS reasoning failed: "@ + e.message_spec(),
                EngineError::TimeoutError(ms) => r@ == "Processing timeout after "@ + decimal_spec(*ms as nat) + "ms"@,
                EngineError::IterationLimitError(n) => r@ == "Maximum iterations ("@ + decimal_spec(*n as nat) + ") exceeded"@,
                EngineError::InternalError(m) => r@ == "Internal engine error: "@ + m@,
            },
    {
        match self {
            EngineError::RuleError(e) => {
                let inner = e.to_string();
                let r = join("Rule execution failed: ", inner.as_str());
                proof {
                    assert(r@.subrange(0, "Rule execution failed: "@.len() as int) =~= "Rule execution failed: "@);
                }
                r
            },
            EngineError::RdfsError(e) => {
                let inner = e.to_string();
                join("RDFS reasoning failed: ", inner.as_str())
            },
            EngineError::TimeoutError(ms) => {
                let d = decimal(*ms);
                join("Processing timeout after ", d.as_str()).concat("ms")
            },
            EngineError::IterationLimitError(n) => {
                let d = decimal(usize_to_u64(*n));
                join("Maximum iterations (", d.as_str()).concat(") exceeded")
            },
            EngineError::InternalError(m) => join("Internal engine error: ", m.as_str()),
        }
    }
}

impl ReasonerError {
    /// The error message: a prefix naming the kind of error, then what it
    /// carries; for a graph error, the outside error's own message.
    pub fn to_string(&self) -> (r: String)
        ensures
            match self {
                ReasonerError::GraphError(_) => r@.subrange(0, "Graph operation error: "@.len() as int) == "Graph operation error: "@,
                ReasonerError::RuleError(m) => r@ == "Rule evaluation error: "@ + m@,
                ReasonerError::ReasoningError(m) => r@ == "Reasoning process error: "@ + m@,
                ReasonerError::StoreError(m) => r@ == "Store operation error: "@ + m@,
            },
    {
        match self {
            ReasonerError::GraphError(e) => {
                let inner = error_message(e);
                let r = join("Graph operation error: ", inner.as_str());
                proof {
                    assert(r@.subrange(0, "Graph operation error: "@.len() as int) =~= "Graph operation error: "@);
                }
                r
            },
            ReasonerError::RuleError(m) => join("Rule evaluation error: ", m.as_str()),
            ReasonerError::ReasoningError(m) => join("Reasoning process error: ", m.as_str()),
            ReasonerError::StoreError(m) => join("Store operation error: ", m.as_str()),
        }
    }
}

/// One stage of a processing pipeline.
#[derive(Debug, Clone)]
pub struct PipelineStage {
    pub name: String,
    pub description: String,
    pub engine: PipelineEngine,
    pub conditions: Vec<PipelineCondition>,
    /// Stages to run next on success
    pub on_success: Vec<String>,
    /// Stages to run instead on failure
    pub on_failure: Vec<String>,
}

/// The reasoner a stage runs.
#[derive(Debug, Clone)]
pub enum PipelineEngine {
    Rdfs,
    OwlLite,
    OwlDl,
    Custom(String),
}

/// Condition for running a stage.
#[derive(Debug, Clone)]
pub enum PipelineCondition {
    MinTriples(usize),
    MaxTriples(usize),
    HasViolations(bool),
    Custom(String),
}

/// Errors of a pipeline.
#[derive(Debug)]
pub enum PipelineError {
    NoEntryPoint,
    StageNotFound(String),
    EngineNotImplemented(String),
    ExecutionError(String),
}

impl PipelineError {
    /// The error message.
    pub fn to_string(&self) -> (r: String)
        ensures
            match self {
                PipelineError::NoEntryPoint => r@ == "No entry point defined"@,
                PipelineError::StageNotFound(m) => r@ == "Stage not found: "@ + m@,
                PipelineError::EngineNotImplemented(m) => r@ == "Engine not implemented: "@ + m@,
                PipelineError::ExecutionError(m) => r@ == "Pipeline execution failed: "@ + m@,
            },
    {
        match self {
            PipelineError::NoEntryPoint => "No entry point defined".to_string(),
            PipelineError::StageNotFound(m) => join("Stage not found: ", m.as_str()),
            PipelineError::EngineNotImplemented(m) => join("Engine not implemented: ", m.as_str()),
            PipelineError::ExecutionError(m) => join("Pipeline execution failed: ", m.as_str()),
        }
    }
}

/// Settings of the distributed engine.
#[derive(Debug, Clone)]
pub struct ScalingConfig {
    pub num_workers: usize,
    pub max_queue_size: usize,
    pub load_balancer: LoadBalancerType,
    pub health_check_interval_seconds: u64,
    pub worker_timeout_seconds: u64,
}

/// How work is spread over the workers.
#[derive(Debug, Clone, Copy, PartialEq, Eq, Structural)]
pub enum LoadBalancerType {
    RoundRobin,
    LeastLoaded,
    HashBased,
    Adaptive,
}

/// Hands work to the workers in turn.
#[derive(Debug)]
pub struct RoundRobinBalancer {
    num_workers: usize,
    next_worker: usize,
}

impl RoundRobinBalancer {
    pub closed spec fn workers(&self) -> nat {
        self.num_workers as nat
    }

    /// The worker that gets the next piece of work.
    pub closed spec fn next(&self) -> nat {
        self.next_worker as nat
    }

    pub fn new(num_workers: usize) -> (r: Self)
        ensures
            r.workers() == num_workers,
            r.next() == 0,
    {
        RoundRobinBalancer { num_workers, next_worker: 0 }
    }

    /// The worker for the next piece of work; the one after it comes next,
    /// wrapping around to the first.
    pub fn select_worker(&mut self) -> (r: usize)
        requires
            old(self).workers() > 0,
            old(self).next() < old(self).workers(),
        ensures
            r == old(self).next(),
            final(self).workers() == old(self).workers(),
            final(self).next() == (old(self).next() + 1) % old(self).workers(),
            final(self).next() < final(self).workers(),
    {
        let worker_index = self.next_worker;
        self.next_worker = (self.next_worker + 1) % self.num_workers;
        worker_index
    }
}

/// Hands work to the worker that a hash of the work selects.
#[derive(Debug)]
pub struct HashBasedBalancer {
    num_workers: usize,
}

impl HashBasedBalancer {
    pub closed spec fn workers(&self) -> nat {
        self.num_workers as nat
    }

    pub fn new(num_workers: usize) -> (r: Self)
        ensures
            r.workers() == num_workers,
    {
        HashBasedBalancer { num_workers }
    }

    /// The worker for a piece of work with hash `hash`.
    pub fn select_worker(&self, hash: u64) -> (r: usize)
        requires
            self.workers() > 0,
        ensures
            r == (hash as nat) % self.workers(),
    {
        let n = usize_to_u64(self.num_workers);
        let w = hash % n;
        proof {
            assert(w < self.num_workers);
        }
        w as usize
    }
}

/// The worker picked `k` selections after worker `s`, among `n`.
pub open spec fn round_robin_pick(n: int, s: int, k: int) -> int {
    (s + k) % n
}

/// One of the `n` selections after worker `s` picks worker `w`.
pub open spec fn round_robin_reaches(n: int, s: int, w: int) -> bool {
    exists|k: int| 0 <= k < n && #[trigger] round_robin_pick(n, s, k) == w
}

/// Round robin is fair: starting from any worker, the next `n` selections
/// among `n` workers reach every worker.
pub proof fn law_round_robin_fair(n: int, s: int)
    requires
        0 <= s < n,
    ensures
        forall|w: int| 0 <= w < n ==> #[trigger] round_robin_reaches(n, s, w),
{
    assert forall|w: int| 0 <= w < n implies #[trigger] round_robin_reaches(n, s, w) by {
        if w >= s {
            let k = w - s;
            assert(w % n == w) by (nonlinear_arith)
                requires
                    0 <= w < n,
            ;
            assert(round_robin_pick(n, s, k) == w);
        } else {
            let k = w + n - s;
            assert((w + n) % n == w) by (nonlinear_arith)
                requires
                    0 <= w < n,
            ;
            assert(round_robin_pick(n, s, k) == w);
        }
    }
}

/// The timestamp of an event.
pub open spec fn event_timestamp(e: CyberEvent) -> i64 {
    match e {
        CyberEvent::NetworkConnection { timestamp, .. } => timestamp,
        CyberEvent::ProcessExecution { timestamp, .. } => timestamp,
        CyberEvent::FileAccess { timestamp, .. } => timestamp,
        CyberEvent::UserLogin { timestamp, .. } => timestamp,
    }
}

/// The subject of the triples of an event: `event:` and its timestamp.
pub open spec fn event_subject(e: CyberEvent) -> Seq<char> {
    "event:"@ + signed_decimal_spec(event_timestamp(e) as int)
}

/// The triples that describe an event: its type, then one triple per field
/// (the parent process only when there is one), all about the event's
/// subject, under `http://example.org/` predicates.
pub open spec fn event_triples_spec(e: CyberEvent) -> Seq<TripleView> {
    let s = event_subject(e);
    let head = seq![TripleView { subject: s, predicate: "http://www.w3.org/1999/02/22-rdf-syntax-ns#type"@, object: "http://example.org/CyberEvent"@ }];
    head + match e {
        CyberEvent::NetworkConnection { source_ip, dest_ip, port, protocol, timestamp } => seq![
            TripleView { subject: s, predicate: "http://example.org/sourceIP"@, object: source_ip@ },
            TripleView { subject: s, predicate: "http://example.org/destIP"@, object: dest_ip@ },
            TripleView { subject: s, predicate: "http://example.org/port"@, object: decimal_spec(port as nat) },
            TripleView { subject: s, predicate: "http://example.org/protocol"@, object: protocol@ },
            TripleView { subject: s, predicate: "http://example.org/timestamp"@, object: signed_decimal_spec(timestamp as int) },
        ],
        CyberEvent::ProcessExecution { process_id, parent_process_id, command_line, user, timestamp } =>
            seq![TripleView { subject: s, predicate: "http://example.org/processId"@, object: decimal_spec(process_id as nat) }]
            + match parent_process_id {
                Some(pid) => seq![TripleView { subject: s, predicate: "http://example.org/parentProcessId"@, object: decimal_spec(pid as nat) }],
                None => Seq::empty(),
            }
            + seq![
                TripleView { subject: s, predicate: "http://example.org/commandLine"@, object: command_line@ },
                TripleView { subject: s, predicate: "http://example.org/user"@, object: user@ },
                TripleView { subject: s, predicate: "http://example.org/timestamp"@, object: signed_decimal_spec(timestamp as int) },
            ],
        CyberEvent::FileAccess { file_path, access_type, user, process_id, timestamp } => seq![
            TripleView { subject: s, predicate: "http://example.org/filePath"@, object: file_path@ },
            TripleView { subject: s, predicate: "http://example.org/accessType"@, object: access_type@ },
            TripleView { subject: s, predicate: "http://example.org/user"@, object: user@ },
            TripleView { subject: s, predicate: "http://example.org/processId"@, object: decimal_spec(process_id as nat) },
            TripleView { subject: s, predicate: "http://example.org/timestamp"@, object: signed_decimal_spec(timestamp as int) },
        ],
        CyberEvent::UserLogin { user, source_ip, success, timestamp } => seq![
            TripleView { subject: s, predicate: "http://example.org/user"@, object: user@ },
            TripleView { subject: s, predicate: "http://example.org/sourceIP"@, object: source_ip@ },
            TripleView { subject: s, predicate: "http://example.org/success"@, object: bool_text(success) },
            TripleView { subject: s, predicate: "http://example.org/timestamp"@, object: signed_decimal_spec(timestamp as int) },
        ],
    }
}

/// A triple about `subject` with a predicate and an object.
fn fact(subject: &String, predicate: &str, object: String) -> (r: Triple)
    ensures
        r@ == (TripleView { subject: subject@, predicate: predicate@, object: object@ }),
{
    Triple { subject: subject.clone(), predicate: predicate.to_string(), object }
}

/// The triples that describe a cyber event, in the order of
/// `event_triples_spec`.
pub fn cyber_event_to_triples(event: &CyberEvent) -> (r: Vec<Triple>)
    ensures
        triples_view(r@) == event_triples_spec(*event),
{
    let timestamp = match event {
        CyberEvent::NetworkConnection { timestamp, .. } => *timestamp,
        CyberEvent::ProcessExecution { timestamp, .. } => *timestamp,
        CyberEvent::FileAccess { timestamp, .. } => *timestamp,
        CyberEvent::UserLogin { timestamp, .. } => *timestamp,
    };
    let stamp = signed_decimal(timestamp);
    let subject = join("event:", stamp.as_str());
    let mut triples: Vec<Triple> = Vec::new();
    triples.push(fact(&subject, "http://www.w3.org/1999/02/22-rdf-syntax-ns#type", "http://example.org/CyberEvent".to_string()));
    match event {
        CyberEvent::NetworkConnection { source_ip, dest_ip, port, protocol, timestamp } => {
            triples.push(fact(&subject, "http://example.org/sourceIP", source_ip.clone()));
            triples.push(fact(&subject, "http://example.org/destIP", dest_ip.clone()));
            triples.push(fact(&subject, "http://example.org/port", decimal(*port as u64)));
            triples.push(fact(&subject, "http://example.org/protocol", protocol.clone()));
            triples.push(fact(&subject, "http://example.org/timestamp", signed_decimal(*timestamp)));
        },
        CyberEvent::ProcessExecution { process_id, parent_process_id, command_line, user, timestamp } => {
            triples.push(fact(&subject, "http://example.org/processId", decimal(*process_id as u64)));
            match parent_process_id {
                Some(parent_id) => {
                    triples.push(fact(&subject, "http://example.org/parentProcessId", decimal(*parent_id as u64)));
                },
                None => {},
            }
            triples.push(fact(&subject, "http://example.org/commandLine", command_line.clone()));
            triples.push(fact(&subject, "http://example.org/user", user.clone()));
            triples.push(fact(&subject, "http://example.org/timestamp", signed_decimal(*timestamp)));
        },
        CyberEvent::FileAccess { file_path, access_type, user, process_id, timestamp } => {
            triples.push(fact(&subject, "http://example.org/filePath", file_path.clone()));
            triples.push(fact(&subject, "http://example.org/accessType", access_type.clone()));
            triples.push(fact(&subject, "http://example.org/user", user.clone()));
            triples.push(fact(&subject, "http://example.org/processId", decimal(*process_id as u64)));
            triples.push(fact(&subject, "http://example.org/timestamp", signed_decimal(*timestamp)));
        },
        CyberEvent::UserLogin { user, source_ip, success, timestamp } => {
            triples.push(fact(&subject, "http://example.org/user", user.clone()));
            triples.push(fact(&subject, "http://example.org/sourceIP", source_ip.clone()));
            triples.push(fact(&subject, "http://example.org/success", bool_to_string(*success)));
            triples.push(fact(&subject, "http://example.org/timestamp", signed_decimal(*timestamp)));
        },
    }
    proof {
        assert(triples_view(triples@) =~= event_triples_spec(*event));
    }
    triples
}

/// The event-facing engine: the triples of the events it was given and a
/// reasoning engine to run over them.
pub struct ReasonerEngine {
    rdf_store: RdfStore,
    reasoning_engine: ReasoningEngine,
}

impl ReasonerEngine {
    /// The triples of the events so far.
    pub closed spec fn events_view(&self) -> Seq<TripleView> {
        self.rdf_store.view_triples()
    }

    /// The reasoning engine.
    pub closed spec fn engine(&self) -> ReasoningEngine {
        self.reasoning_engine
    }

    /// An engine without events, with a reasoning engine without rules and
    /// with the default options.
    pub fn new() -> (r: Self)
        ensures
            r.events_view() == Seq::<TripleView>::empty(),
            r.engine().registry().count_rules() == 0,
            r.engine().registry().count_validation_rules() == 0,
            r.engine().options().enable_rdfs_inference,
            r.engine().options().enable_inference,
            r.engine().options().enable_validation,
    {
        ReasonerEngine { rdf_store: RdfStore::new(), reasoning_engine: ReasoningEngine::new() }
    }

    /// Add the triples of an event to the store.
    pub fn add_event(&mut self, event: CyberEvent) -> (r: Result<(), ReasonerError>)
        ensures
            r is Ok,
            final(self).events_view() == old(self).events_view() + event_triples_spec(event),
            final(self).engine() == old(self).engine(),
    {
        let triples = cyber_event_to_triples(&event);
        let ghost before = self.rdf_store.view_triples();
        let ghost tv = triples_view(triples@);
        let mut rest = triples;
        let ghost mut k: int = 0;
        proof {
            assert(rest@ =~= triples@.subrange(0, triples@.len() as int));
            assert(before + tv.take(0) =~= before);
        }
        while rest.len() > 0
            invariant
                0 <= k <= tv.len(),
                tv.len() == triples@.len(),
                tv == triples_view(triples@),
                rest@ == triples@.subrange(k, triples@.len() as int),
                self.rdf_store.view_triples() == before + tv.take(k),
                self.reasoning_engine == old(self).engine(),
            decreases rest.len(),
        {
            let t = rest.remove(0);
            proof {
                assert(t == triples@[k]);
                assert(rest@ =~= triples@.subrange(k + 1, triples@.len() as int));
                assert(before + tv.take(k + 1) =~= (before + tv.take(k)).push(t@));
                k = k + 1;
            }
            self.rdf_store.insert(t);
        }
        proof {
            assert(tv.take(tv.len() as int) =~= tv);
        }
        Ok(())
    }

    /// The security actions that a run of the reasoning engine over the
    /// event triples proposes; nothing else changes. A failed run is a
    /// reasoning error with the run's message.
    pub fn reason(&self) -> (r: Result<Vec<SecurityAction>, ReasonerError>)
        ensures
            match r {
                Ok(actions) => exists|res: EngineResult|
                    engine_run(self.engine(), self.events_view(), res) && action_views(actions@) == action_views(res.actions@),
                Err(e) => e is ReasoningError,
            },
            runs_alone(self.engine()) ==> r is Ok,
    {
        match self.reasoning_engine.process(&self.rdf_store) {
            Ok(result) => {
                let ghost res = result;
                proof {
                    assert(engine_run(self.engine(), self.events_view(), res));
                    assert(engine_run(self.engine(), self.events_view(), res) && action_views(result.actions@) == action_views(res.actions@));
                }
                Ok(result.actions)
            },
            Err(e) => Err(ReasonerError::ReasoningError(e.to_string())),
        }
    }

    /// A run of the reasoning engine over another store; a failed run is a
    /// reasoning error with the run's message.
    pub fn process(&self, store: &RdfStore) -> (r: Result<EngineResult, ReasonerError>)
        ensures
            match r {
                Ok(res) => engine_run(self.engine(), store.view_triples(), res),
                Err(e) => e is ReasoningError,
            },
            runs_alone(self.engine()) ==> r is Ok,
    {
        match self.reasoning_engine.process(store) {
            Ok(result) => Ok(result),
            Err(e) => Err(ReasonerError::ReasoningError(e.to_string())),
        }
    }

    /// The store of event triples.
    pub fn get_graph_store(&self) -> (r: &RdfStore)
        ensures
            r.view_triples() == self.events_view(),
    {
        &self.rdf_store
    }

    /// Forget every event.
    pub fn reset(&mut self) -> (r: Result<(), ReasonerError>)
        ensures
            r is Ok,
            final(self).events_view() == Seq::<TripleView>::empty(),
            final(self).engine() == old(self).engine(),
    {
        self.rdf_store.clear_all();
        Ok(())
    }

    /// Rules of this kind are not taken by this engine: the rule is
    /// dropped and nothing changes.
    pub fn add_rule(&mut self, _rule: InferenceRule)
        ensures
            final(self).events_view() == old(self).events_view(),
            final(self).engine() == old(self).engine(),
    {
    }
}

} // verus!
