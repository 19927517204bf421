use fukurow::observability::{overall_health, HealthStatus};
use std::collections::HashMap;
use fukurow::model::{CyberEvent, Triple};
use fukurow::api::{SubmitEventRequest, ReasoningRequest, GraphQueryRequest, GraphQueryResponse, HealthResponse,
    ThreatIntelResponse, ApiError, ServerConfig};
use fukurow::siem::{SiemUtils, SiemType, build_url};

#[test]
fn test_submit_event_request() {
    let event = CyberEvent::NetworkConnection {
        source_ip: "192.168.1.1".to_string(),
        dest_ip: "10.0.0.1".to_string(),
        port: 443,
        protocol: "tcp".to_string(),
        timestamp: 1640995200,
    };
    let request = SubmitEventRequest { event: event.clone() };
    match request.event {
        CyberEvent::NetworkConnection { source_ip, .. } => {
            assert_eq!(source_ip, "192.168.1.1");
        }
        _ => panic!("Expected NetworkConnection"),
    }
}

#[test]
fn test_reasoning_request() {
    let request = ReasoningRequest { include_details: Some(true) };
    assert_eq!(request.include_details, Some(true));
    let request2 = ReasoningRequest { include_details: None };
    assert_eq!(request2.include_details, None);
}

#[test]
fn test_graph_query_request() {
    let request = GraphQueryRequest {
        subject: Some("subject1".to_string()),
        predicate: Some("predicate1".to_string()),
        object: None,
        graph_name: Some("default".to_string()),
    };
    assert_eq!(request.subject, Some("subject1".to_string()));
    assert_eq!(request.predicate, Some("predicate1".to_string()));
    assert_eq!(request.object, None);
    assert_eq!(request.graph_name, Some("default".to_string()));
}

#[test]
fn test_graph_query_response() {
    let triples = vec![Triple { subject: "s".to_string(), predicate: "p".to_string(), object: "o".to_string() }];
    let response = GraphQueryResponse { triples: triples.clone(), count: 1 };
    assert_eq!(response.triples.len(), 1);
    assert_eq!(response.count, 1);
}

#[test]
fn test_health_response() {
    let response = HealthResponse { status: "healthy".to_string(), version: "1.0.0".to_string(), uptime_seconds: 3600 };
    assert_eq!(response.status, "healthy");
    assert_eq!(response.version, "1.0.0");
    assert_eq!(response.uptime_seconds, 3600);
}

#[test]
fn test_threat_intel_response() {
    let mut statistics = HashMap::new();
    statistics.insert("malware".to_string(), 10);
    statistics.insert("phishing".to_string(), 5);
    let response = ThreatIntelResponse { indicators_count: 15, sources_count: 3, last_updated: 1640995200, statistics };
    assert_eq!(response.indicators_count, 15);
    assert_eq!(response.sources_count, 3);
    assert_eq!(response.last_updated, 1640995200);
    assert_eq!(response.statistics.get("malware"), Some(&10));
    assert_eq!(response.statistics.get("phishing"), Some(&5));
}

#[test]
fn test_api_error_variants() {
    let err1 = ApiError::InvalidRequest("bad request".to_string());
    assert!(err1.to_string().contains("Invalid request"));
    let err2 = ApiError::EventProcessingError("processing failed".to_string());
    assert!(err2.to_string().contains("Event processing error"));
    let err3 = ApiError::ReasoningError("reasoning failed".to_string());
    assert!(err3.to_string().contains("Reasoning error"));
    let err4 = ApiError::GraphError("graph error".to_string());
    assert!(err4.to_string().contains("Graph operation error"));
    let err5 = ApiError::InternalError("internal error".to_string());
    assert!(err5.to_string().contains("Internal server error"));
}

#[test]
fn test_api_error_messages_exact() {
    assert_eq!(ApiError::InvalidRequest("x".to_string()).to_string(), "Invalid request: x");
    assert_eq!(ApiError::InternalError("y".to_string()).to_string(), "Internal server error: y");
}

#[test]
fn test_server_config_default() {
    let config = ServerConfig::default();
    assert_eq!(config.host, "0.0.0.0");
    assert_eq!(config.port, 3000);
    assert_eq!(config.max_connections, 100);
}

#[test]
fn test_server_config_custom() {
    let config = ServerConfig { host: "127.0.0.1".to_string(), port: 8080, max_connections: 50 };
    assert_eq!(config.host, "127.0.0.1");
    assert_eq!(config.port, 8080);
    assert_eq!(config.max_connections, 50);
}

#[test]
fn test_health_response_creation() {
    let response = HealthResponse { status: "healthy".to_string(), version: "1.0.0".to_string(), uptime_seconds: 3600 };
    assert_eq!(response.status, "healthy");
    assert_eq!(response.version, "1.0.0");
    assert_eq!(response.uptime_seconds, 3600);
}

#[test]
fn test_graph_query_response_creation() {
    let triples = vec![Triple { subject: "s".to_string(), predicate: "p".to_string(), object: "o".to_string() }];
    let response = GraphQueryResponse { triples: triples.clone(), count: 1 };
    assert_eq!(response.triples.len(), 1);
    assert_eq!(response.count, 1);
}

#[test]
fn test_threat_intel_response_creation() {
    let mut statistics = HashMap::new();
    statistics.insert("malware".to_string(), 10);
    statistics.insert("phishing".to_string(), 5);
    let response = ThreatIntelResponse { indicators_count: 15, sources_count: 3, last_updated: 1640995200, statistics };
    assert_eq!(response.indicators_count, 15);
    assert_eq!(response.sources_count, 3);
    assert_eq!(response.last_updated, 1640995200);
    assert_eq!(response.statistics.get("malware"), Some(&10));
    assert_eq!(response.statistics.get("phishing"), Some(&5));
}

#[test]
fn test_splunk_config_creation() {
    let config = SiemUtils::create_splunk_config("https://splunk.example.com:8088".to_string(), "token123".to_string());
    assert!(matches!(config.system_type, SiemType::Splunk));
    assert_eq!(config.endpoint_url, "https://splunk.example.com:8088");
    assert_eq!(config.auth_token, Some("token123".to_string()));
    assert_eq!(config.index, Some("security".to_string()));
}

#[test]
fn test_elk_config_creation() {
    let config = SiemUtils::create_elk_config("https://elk.example.com:9200".to_string(), Some("token456".to_string()));
    assert!(matches!(config.system_type, SiemType::Elk));
    assert_eq!(config.endpoint_url, "https://elk.example.com:9200");
    assert_eq!(config.auth_token, Some("token456".to_string()));
}

#[test]
fn test_chronicle_config_creation() {
    let config = SiemUtils::create_chronicle_config("https://chronicle.example.com".to_string(), "token789".to_string());
    assert!(matches!(config.system_type, SiemType::Chronicle));
    assert_eq!(config.endpoint_url, "https://chronicle.example.com");
    assert_eq!(config.auth_token, Some("token789".to_string()));
}

#[test]
fn test_siem_urls() {
    let splunk = SiemUtils::create_splunk_config("https://splunk.example.com:8088/".to_string(), "t".to_string());
    assert_eq!(build_url(&splunk), "https://splunk.example.com:8088/services/collector/event");
    let elk = SiemUtils::create_elk_config("https://elk.example.com:9200".to_string(), None);
    assert_eq!(build_url(&elk), "https://elk.example.com:9200/_bulk");
}

#[test]
fn test_overall_health_picks_worst_status() {
    assert_eq!(overall_health(&vec![]), HealthStatus::Up);
    assert_eq!(overall_health(&vec![HealthStatus::Up, HealthStatus::Up]), HealthStatus::Up);
    assert_eq!(overall_health(&vec![HealthStatus::Up, HealthStatus::Degraded]), HealthStatus::Degraded);
    assert_eq!(overall_health(&vec![HealthStatus::Degraded, HealthStatus::Down, HealthStatus::Up]), HealthStatus::Down);
}
