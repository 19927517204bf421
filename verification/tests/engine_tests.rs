use fukurow::engine::{ScalingConfig, LoadBalancerType, RoundRobinBalancer, HashBasedBalancer};

#[test]
fn test_scaling_config() {
    let config = ScalingConfig {
        num_workers: 4,
        max_queue_size: 100,
        load_balancer: LoadBalancerType::RoundRobin,
        health_check_interval_seconds: 30,
        worker_timeout_seconds: 60,
    };
    assert_eq!(config.num_workers, 4);
    assert_eq!(config.max_queue_size, 100);
}

#[test]
fn test_round_robin_balancer() {
    let mut balancer = RoundRobinBalancer::new(3);
    assert_eq!(balancer.select_worker(), 0);
    assert_eq!(balancer.select_worker(), 1);
    assert_eq!(balancer.select_worker(), 2);
    assert_eq!(balancer.select_worker(), 0);
}

#[test]
fn test_round_robin_visits_every_worker() {
    let mut balancer = RoundRobinBalancer::new(5);
    balancer.select_worker();
    balancer.select_worker();
    let mut seen = vec![false; 5];
    for _ in 0..5 {
        seen[balancer.select_worker()] = true;
    }
    assert!(seen.iter().all(|s| *s));
}

#[test]
fn test_hash_based_balancer() {
    let balancer = HashBasedBalancer::new(4);
    assert_eq!(balancer.select_worker(10), 2);
    assert_eq!(balancer.select_worker(3), 3);
    assert_eq!(balancer.select_worker(8), 0);
}

use fukurow::engine::{EngineError, ProcessingOptions, ProcessingStats, ReasonerEngine};
use fukurow::engine::orchestration::{EngineResult, ReasoningEngine, ReasoningPipeline};
use fukurow::model::{CyberEvent, JsonValue, SecurityAction, Triple};
use fukurow::rdf_store::RdfStore;
use fukurow::rdfs::RdfsError;
use fukurow::rules::RuleError;
use fukurow::cyber::MaliciousIpDetector;

#[test]
fn test_reasoner_engine_creation() {
    let reasoner = ReasonerEngine::new();
    let store = reasoner.get_graph_store();
    assert_eq!(store.len(), 0);
}

#[test]
fn test_add_event() {
    let mut reasoner = ReasonerEngine::new();
    let event = CyberEvent::NetworkConnection {
        source_ip: "192.168.1.10".to_string(),
        dest_ip: "10.0.0.50".to_string(),
        port: 443,
        protocol: "tcp".to_string(),
        timestamp: 1640995200,
    };
    let result = reasoner.add_event(event);
    assert!(result.is_ok());
    let store = reasoner.get_graph_store();
    let triples = store.find_triples(None, None, None);
    assert!(!triples.is_empty());
}

#[test]
fn test_reasoning_engine_creation() {
    let engine = ReasoningEngine::new();
    assert_eq!(engine.rule_registry().rule_count(), 0);
}

#[test]
fn test_reasoning_engine_default_options() {
    let options = ProcessingOptions::default();
    assert_eq!(options.max_iterations, 10);
    assert!(options.enable_validation);
    assert!(options.enable_inference);
    assert!(options.enable_rdfs_inference);
    assert_eq!(options.timeout_ms, Some(5000));
}

#[test]
fn test_empty_reasoning() {
    let engine = ReasoningEngine::new();
    let store = RdfStore::new();
    let result = engine.process(&store);
    assert!(result.is_ok());
    let engine_result = result.unwrap();
    assert_eq!(engine_result.inferred_triples.len(), 0);
    assert_eq!(engine_result.actions.len(), 0);
    assert_eq!(engine_result.violations.len(), 0);
}

#[test]
fn test_engine_result_creation() {
    let result = EngineResult {
        inferred_triples: vec![Triple { subject: "test".to_string(), predicate: "type".to_string(), object: "Test".to_string() }],
        actions: vec![SecurityAction::Alert {
            severity: "high".to_string(),
            message: "Test alert".to_string(),
            details: JsonValue::Object(vec![("test".to_string(), JsonValue::Bool(true))]),
        }],
        violations: vec![],
        stats: ProcessingStats { rules_applied: 1, triples_processed: 10, execution_time_ms: 150, memory_used_kb: Some(1024) },
    };
    assert_eq!(result.inferred_triples.len(), 1);
    assert_eq!(result.actions.len(), 1);
    assert_eq!(result.violations.len(), 0);
    assert_eq!(result.stats.rules_applied, 1);
    assert_eq!(result.stats.triples_processed, 10);
    assert_eq!(result.stats.execution_time_ms, 150);
    assert_eq!(result.stats.memory_used_kb, Some(1024));
}

#[test]
fn test_processing_stats_creation() {
    let stats = ProcessingStats { rules_applied: 5, triples_processed: 100, execution_time_ms: 200, memory_used_kb: None };
    assert_eq!(stats.rules_applied, 5);
    assert_eq!(stats.triples_processed, 100);
    assert_eq!(stats.execution_time_ms, 200);
    assert_eq!(stats.memory_used_kb, None);
}

#[test]
fn test_engine_error_variants() {
    let rule_err = EngineError::RuleError(RuleError::ConfigurationError { message: "test".to_string() });
    assert!(rule_err.to_string().contains("Rule execution failed"));

    let rdfs_err = EngineError::RdfsError(RdfsError::InvalidTriple("test".to_string()));
    assert!(rdfs_err.to_string().contains("RDFS reasoning failed"));

    let timeout_err = EngineError::TimeoutError(5000);
    assert!(timeout_err.to_string().contains("5000ms"));

    let iteration_err = EngineError::IterationLimitError(10);
    assert!(iteration_err.to_string().contains("10"));

    let internal_err = EngineError::InternalError("test error".to_string());
    assert!(internal_err.to_string().contains("test error"));
}

fn t(s: &str, p: &str, o: &str) -> Triple {
    Triple { subject: s.to_string(), predicate: p.to_string(), object: o.to_string() }
}

#[test]
fn test_process_runs_rdfs_then_rules() {
    let sub = "http://www.w3.org/2000/01/rdf-schema#subClassOf";
    let rdf_type = "http://www.w3.org/1999/02/22-rdf-syntax-ns#type";
    let mut store = RdfStore::new();
    store.insert(t("Dog", sub, "Animal"));
    store.insert(t("rex", rdf_type, "Dog"));
    store.insert(t("conn", rdf_type, "http://example.org/CyberEvent"));
    store.insert(t("conn", "http://example.org/destIP", "10.0.0.50"));
    let mut engine = ReasoningEngine::new();
    engine.register_rule(Box::new(MaliciousIpDetector::new().create_rule()));
    let result = engine.process(&store).unwrap();
    assert!(result.inferred_triples.iter().any(|x| x.subject == "rex" && x.predicate == rdf_type && x.object == "Animal"));
    assert_eq!(result.actions.len(), 1);
    // The RDFS step counts as one rule, the registered rule as another.
    assert_eq!(result.stats.rules_applied, 2);
    assert_eq!(result.stats.triples_processed, 4);
    assert_eq!(result.stats.memory_used_kb, None);

    let options = ProcessingOptions { enable_rdfs_inference: false, enable_inference: false, ..ProcessingOptions::default() };
    let quiet = ReasoningEngine::with_options(options);
    let result = quiet.process(&store).unwrap();
    assert!(result.inferred_triples.is_empty());
    assert_eq!(result.stats.rules_applied, 0);
}

#[test]
fn test_reasoner_engine_reason_and_reset() {
    let mut reasoner = ReasonerEngine::new();
    reasoner
        .add_event(CyberEvent::UserLogin { user: "u".to_string(), source_ip: "1.1.1.1".to_string(), success: true, timestamp: 9 })
        .unwrap();
    assert_eq!(reasoner.get_graph_store().len(), 5);
    assert!(reasoner.reason().unwrap().is_empty());
    reasoner.reset().unwrap();
    assert_eq!(reasoner.get_graph_store().len(), 0);
}

#[test]
fn test_reasoning_pipeline_totals() {
    let mut pipeline = ReasoningPipeline::new();
    pipeline.add_engine(ReasoningEngine::new());
    pipeline.add_engine(ReasoningEngine::new());
    let store = RdfStore::new();
    let result = pipeline.execute(&store).unwrap();
    assert_eq!(result.engine_results.len(), 2);
    assert_eq!(result.total_stats.rules_applied, 2);
    assert_eq!(result.total_stats.triples_processed, 0);
}
