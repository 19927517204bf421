use fukurow::engine::cyber_event_to_triples;
use fukurow::engine::{PipelineCondition, PipelineEngine, PipelineError, PipelineStage};
use fukurow::engine::pipeline::{PipelineBuilder, ProcessingPipeline};
use fukurow::model::{CyberEvent, JsonValue, SecurityAction, Triple};
use fukurow::rdf_store::RdfStore;
use fukurow::siem::{siem_event_json, siem_payload, SiemEvent, SiemUtils};

fn pair(t: &Triple) -> (String, String) {
    (t.predicate.clone(), t.object.clone())
}

#[test]
fn test_cyber_event_to_triples_network() {
    let event = CyberEvent::NetworkConnection {
        source_ip: "10.0.0.1".to_string(),
        dest_ip: "8.8.8.8".to_string(),
        port: 53,
        protocol: "udp".to_string(),
        timestamp: 1700000000,
    };
    let triples = cyber_event_to_triples(&event);
    assert!(triples.iter().all(|t| t.subject == "event:1700000000"));
    let got: Vec<(String, String)> = triples.iter().map(pair).collect();
    let want: Vec<(String, String)> = vec![
        ("http://www.w3.org/1999/02/22-rdf-syntax-ns#type", "http://example.org/CyberEvent"),
        ("http://example.org/sourceIP", "10.0.0.1"),
        ("http://example.org/destIP", "8.8.8.8"),
        ("http://example.org/port", "53"),
        ("http://example.org/protocol", "udp"),
        ("http://example.org/timestamp", "1700000000"),
    ]
    .into_iter()
    .map(|(p, o)| (p.to_string(), o.to_string()))
    .collect();
    assert_eq!(got, want);
}

#[test]
fn test_cyber_event_to_triples_process_and_login() {
    let with_parent = CyberEvent::ProcessExecution {
        process_id: 7,
        parent_process_id: Some(1),
        command_line: "ls".to_string(),
        user: "root".to_string(),
        timestamp: -5,
    };
    let triples = cyber_event_to_triples(&with_parent);
    assert_eq!(triples.len(), 6);
    assert_eq!(triples[0].subject, "event:-5");
    assert_eq!(pair(&triples[2]), ("http://example.org/parentProcessId".to_string(), "1".to_string()));
    assert_eq!(pair(&triples[5]), ("http://example.org/timestamp".to_string(), "-5".to_string()));

    let without_parent = CyberEvent::ProcessExecution {
        process_id: 7,
        parent_process_id: None,
        command_line: "ls".to_string(),
        user: "root".to_string(),
        timestamp: 0,
    };
    assert_eq!(cyber_event_to_triples(&without_parent).len(), 5);

    let login = CyberEvent::UserLogin { user: "u".to_string(), source_ip: "1.2.3.4".to_string(), success: false, timestamp: 3 };
    let triples = cyber_event_to_triples(&login);
    assert_eq!(pair(&triples[3]), ("http://example.org/success".to_string(), "false".to_string()));
}

#[test]
fn test_siem_event_from_actions() {
    let isolate = SecurityAction::IsolateHost { host_ip: "10.0.0.9".to_string(), reason: "worm".to_string() };
    let e = SiemEvent::from_security_action(&isolate, "sensor-1".to_string());
    assert_eq!(e.level, "critical");
    assert_eq!(e.message, "Host isolation required: 10.0.0.9 - worm");
    assert_eq!(e.event_type, "host_isolation");
    assert_eq!(e.source, "fukurow-reasoner");
    assert_eq!(e.host, "sensor-1");
    assert_eq!(e.details.get("target_host"), Some(&JsonValue::Str("10.0.0.9".to_string())));

    let terminate = SecurityAction::TerminateProcess { process_id: 42, reason: "miner".to_string() };
    let e = SiemEvent::from_security_action(&terminate, "h".to_string());
    assert_eq!(e.message, "Process termination required: 42 - miner");
    assert_eq!(e.details.get("process_id"), Some(&JsonValue::Number(42)));

    let alert = SecurityAction::Alert { severity: "low".to_string(), message: "note".to_string(), details: JsonValue::Null };
    let e = SiemEvent::from_security_action(&alert, "h".to_string());
    assert_eq!(e.event_type, "security_alert");
    assert_eq!(e.severity, "low");
    assert_eq!(e.details, JsonValue::Null);
}

#[test]
fn test_siem_payload_shapes() {
    let action = SecurityAction::BlockConnection {
        source_ip: "1.1.1.1".to_string(),
        dest_ip: "2.2.2.2".to_string(),
        reason: "scan".to_string(),
    };
    let event = SiemEvent::from_security_action(&action, "gw".to_string());
    let json = siem_event_json(&event);
    assert_eq!(json.get("host"), Some(&JsonValue::Str("gw".to_string())));
    assert_eq!(json.get("event_type"), Some(&JsonValue::Str("connection_block".to_string())));

    let splunk = SiemUtils::create_splunk_config("https://splunk".to_string(), "t".to_string());
    let payload = siem_payload(&splunk, &event, "0.1.0");
    assert_eq!(payload.get("index"), Some(&JsonValue::Str("security".to_string())));
    assert_eq!(payload.get("sourcetype"), Some(&JsonValue::Str("fukurow:security".to_string())));
    assert_eq!(payload.get("source"), Some(&JsonValue::Str("fukurow-reasoner".to_string())));

    let elk = SiemUtils::create_elk_config("https://elk".to_string(), None);
    let payload = siem_payload(&elk, &event, "9.9.9");
    let service = payload.get("service").expect("service");
    assert_eq!(service.get("version"), Some(&JsonValue::Str("9.9.9".to_string())));

    let chronicle = SiemUtils::create_chronicle_config("https://c".to_string(), "k".to_string());
    let payload = siem_payload(&chronicle, &event, "0");
    let meta = payload.get("metadata").expect("metadata");
    assert_eq!(meta.get("vendor_name"), Some(&JsonValue::Str("fukurow".to_string())));
}

fn stage(name: &str, engine: PipelineEngine, conditions: Vec<PipelineCondition>, on_failure: &[&str]) -> PipelineStage {
    PipelineStage {
        name: name.to_string(),
        description: String::new(),
        engine,
        conditions,
        on_success: Vec::new(),
        on_failure: on_failure.iter().map(|s| s.to_string()).collect(),
    }
}

#[test]
fn test_pipeline_without_entry_point() {
    let mut pipeline = ProcessingPipeline::new();
    let store = RdfStore::new();
    match pipeline.execute(&store) {
        Err(e @ PipelineError::NoEntryPoint) => assert_eq!(e.to_string(), "No entry point defined"),
        other => panic!("unexpected {:?}", other.map(|r| r.stage_results.len())),
    }
}

#[test]
fn test_pipeline_runs_failure_stages() {
    let mut pipeline = ProcessingPipeline::new();
    pipeline.add_stage(stage("rdfs", PipelineEngine::Rdfs, Vec::new(), &["lite", "dl"]));
    pipeline.add_stage(stage("lite", PipelineEngine::OwlLite, Vec::new(), &[]));
    pipeline.add_stage(stage("dl", PipelineEngine::OwlDl, vec![PipelineCondition::MinTriples(1)], &[]));
    pipeline.set_entry_point("rdfs".to_string());
    let store = RdfStore::new();
    let result = pipeline.execute(&store).expect("runs to the end");
    assert!(result.stage_results.is_empty());
    let names: Vec<&str> = result.execution_history.iter().map(|e| e.stage_name.as_str()).collect();
    // "dl" needs a triple, the store has none.
    assert_eq!(names, vec!["rdfs", "lite"]);
    assert_eq!(result.execution_history[0].error.as_deref(), Some("Engine not implemented: RDFS"));
    assert_eq!(result.execution_history[1].error.as_deref(), Some("Engine not implemented: OWL Lite"));
    assert!(result.execution_history[0].result.is_none());
    assert_eq!(pipeline.execution_history().len(), 2);
}

#[test]
fn test_pipeline_missing_stage() {
    let mut pipeline = ProcessingPipeline::new();
    pipeline.add_stage(stage("a", PipelineEngine::Custom("x".to_string()), Vec::new(), &["nowhere"]));
    pipeline.set_entry_point("a".to_string());
    let store = RdfStore::new();
    match pipeline.execute(&store) {
        Err(PipelineError::StageNotFound(name)) => assert_eq!(name, "nowhere"),
        other => panic!("unexpected {:?}", other.map(|r| r.stage_results.len())),
    }
    // The run of "a" stays in the history.
    assert_eq!(pipeline.execution_history().len(), 1);
    assert_eq!(pipeline.execution_history()[0].error.as_deref(), Some("Engine not implemented: Custom: x"));
}

#[test]
fn test_pipeline_cycle_is_reported() {
    let mut pipeline = ProcessingPipeline::new();
    pipeline.add_stage(stage("a", PipelineEngine::Rdfs, Vec::new(), &["b"]));
    pipeline.add_stage(stage("b", PipelineEngine::Rdfs, Vec::new(), &["a"]));
    pipeline.set_entry_point("a".to_string());
    let store = RdfStore::new();
    match pipeline.execute(&store) {
        Err(PipelineError::ExecutionError(m)) => assert_eq!(m, "failing stages name each other in a cycle"),
        other => panic!("unexpected {:?}", other.map(|r| r.stage_results.len())),
    }
}

#[test]
fn test_pipeline_conditions() {
    let mut store = RdfStore::new();
    store.insert(Triple { subject: "s".to_string(), predicate: "p".to_string(), object: "o".to_string() });
    let run = |conditions: Vec<PipelineCondition>| {
        let mut pipeline = ProcessingPipeline::new();
        pipeline.add_stage(stage("only", PipelineEngine::Rdfs, conditions, &[]));
        pipeline.set_entry_point("only".to_string());
        pipeline.execute(&store).unwrap().execution_history.len()
    };
    assert_eq!(run(vec![PipelineCondition::MinTriples(1)]), 1);
    assert_eq!(run(vec![PipelineCondition::MinTriples(2)]), 0);
    assert_eq!(run(vec![PipelineCondition::MaxTriples(0)]), 0);
    assert_eq!(run(vec![PipelineCondition::HasViolations(true)]), 0);
    assert_eq!(run(vec![PipelineCondition::HasViolations(false)]), 1);
    // A custom condition lets the stage run, whatever follows it.
    assert_eq!(run(vec![PipelineCondition::Custom("c".to_string()), PipelineCondition::MinTriples(9)]), 1);
}

#[test]
fn test_pipeline_builder() {
    let pipeline = PipelineBuilder::new()
        .add_rdfs_stage("one", "first")
        .add_owl_lite_stage("two", "second")
        .add_owl_dl_stage("one", "replaced")
        .entry_point("one")
        .build();
    let stages = pipeline.stages();
    assert_eq!(stages.len(), 2);
    let one = stages.iter().find(|s| s.name == "one").unwrap();
    assert_eq!(one.description, "replaced");
    assert!(matches!(one.engine, PipelineEngine::OwlDl));
}

use fukurow::siem::{authorization_header, basic_credentials, combine_send_outcomes, response_outcome, SiemError, SiemIntegrationManager};

#[test]
fn test_siem_manager_configs() {
    let mut manager = SiemIntegrationManager::new();
    assert!(manager.is_enabled());
    manager.add_config("splunk".to_string(), SiemUtils::create_splunk_config("https://s".to_string(), "t1".to_string()));
    manager.add_config("elk".to_string(), SiemUtils::create_elk_config("https://e".to_string(), None));
    manager.add_config("splunk".to_string(), SiemUtils::create_splunk_config("https://s2".to_string(), "t2".to_string()));
    assert_eq!(manager.list_configs(), vec!["splunk".to_string(), "elk".to_string()]);
    assert_eq!(manager.get_config("splunk").unwrap().endpoint_url, "https://s2");
    assert!(manager.get_config("chronicle").is_none());
    assert_eq!(manager.targets().len(), 2);
    manager.set_enabled(false);
    assert!(manager.targets().is_empty());
}

#[test]
fn test_siem_request_decisions() {
    let splunk = SiemUtils::create_splunk_config("https://s".to_string(), "tok".to_string());
    assert_eq!(authorization_header(&splunk), Some("Splunk tok".to_string()));
    let chronicle = SiemUtils::create_chronicle_config("https://c".to_string(), "k".to_string());
    assert_eq!(authorization_header(&chronicle), Some("Bearer k".to_string()));
    let elk = SiemUtils::create_elk_config("https://e".to_string(), None);
    assert_eq!(authorization_header(&elk), None);
    assert_eq!(basic_credentials(&elk), None);
    let mut with_user = elk.clone();
    with_user.username = Some("u".to_string());
    with_user.password = Some("p".to_string());
    assert_eq!(basic_credentials(&with_user), Some(("u".to_string(), "p".to_string())));

    assert!(response_outcome(204, String::new()).is_ok());
    match response_outcome(503, "busy".to_string()) {
        Err(SiemError::HttpError { status, body }) => {
            assert_eq!(status, 503);
            assert_eq!(body, "busy");
        }
        other => panic!("unexpected {:?}", other),
    }
    assert!(combine_send_outcomes(vec![("a".to_string(), Ok(()))]).is_ok());
    let combined = combine_send_outcomes(vec![
        ("a".to_string(), Err(SiemError::NetworkError("down".to_string()))),
        ("b".to_string(), Ok(())),
        ("c".to_string(), Err(SiemError::ConfigError("bad".to_string()))),
    ]);
    match combined {
        Err(SiemError::MultipleErrors(errs)) => {
            let names: Vec<&str> = errs.iter().map(|(n, _)| n.as_str()).collect();
            assert_eq!(names, vec!["a", "c"]);
        }
        other => panic!("unexpected {:?}", other),
    }
}
