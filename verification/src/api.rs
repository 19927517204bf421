//! Data exchanged by the web API, its settings and its errors.

use vstd::prelude::*;
use std::collections::HashMap;
use crate::model::{CyberEvent, SecurityAction, Triple, InferenceRule};
use crate::outside::current_unix_timestamp;
use crate::text::join;

verus! {

/// Settings of the API server.
#[derive(Debug, Clone)]
pub struct ServerConfig {
    pub host: String,
    pub port: u16,
    pub max_connections: usize,
}

impl Default for ServerConfig {
    fn default() -> (r: Self)
        ensures
            r.host@ == "0.0.0.0"@,
            r.port == 3000,
            r.max_connections == 100,
    {
        ServerConfig { host: "0.0.0.0".to_string(), port: 3000, max_connections: 100 }
    }
}

/// Envelope of every API answer.
#[derive(Debug)]
pub struct ApiResponse<T> {
    pub success: bool,
    pub data: Option<T>,
    pub error: Option<String>,
    pub timestamp: i64,
}

impl<T> ApiResponse<T> {
    /// A successful answer carrying `data`, stamped with the current time.
    pub fn success(data: T) -> (r: Self)
        ensures
            r.success,
            r.data == Some(data),
            r.error is None,
    {
        ApiResponse { success: true, data: Some(data), error: None, timestamp: current_unix_timestamp() }
    }

    /// A failed answer carrying `message`, stamped with the current time.
    pub fn error(message: String) -> (r: Self)
        ensures
            !r.success,
            r.data is None,
            r.error == Some(message),
    {
        ApiResponse { success: false, data: None, error: Some(message), timestamp: current_unix_timestamp() }
    }
}

/// Request to submit an event.
#[derive(Debug)]
pub struct SubmitEventRequest {
    pub event: CyberEvent,
}

/// Request to run the reasoner.
#[derive(Debug)]
pub struct ReasoningRequest {
    pub include_details: Option<bool>,
}

/// Result of a reasoning run.
#[derive(Debug)]
pub struct ReasoningResponse {
    pub actions: Vec<SecurityAction>,
    pub execution_time_ms: u64,
    pub event_count: usize,
}

/// Request to query the graph.
#[derive(Debug)]
pub struct GraphQueryRequest {
    pub subject: Option<String>,
    pub predicate: Option<String>,
    pub object: Option<String>,
    pub graph_name: Option<String>,
}

/// Result of a graph query.
#[derive(Debug)]
pub struct GraphQueryResponse {
    pub triples: Vec<Triple>,
    pub count: usize,
}

/// Health of the service.
#[derive(Debug)]
pub struct HealthResponse {
    pub status: String,
    pub version: String,
    pub uptime_seconds: u64,
}

/// Request to add an inference rule.
#[derive(Debug)]
pub struct AddRuleRequest {
    pub rule: InferenceRule,
}

/// The inference rules.
#[derive(Debug)]
pub struct RulesResponse {
    pub rules: Vec<InferenceRule>,
    pub count: usize,
}

/// Summary of the threat intelligence.
#[derive(Debug)]
pub struct ThreatIntelResponse {
    pub indicators_count: usize,
    pub sources_count: usize,
    pub last_updated: i64,
    pub statistics: HashMap<String, usize>,
}

/// Status of a health check.
#[derive(Debug, Clone, Copy, PartialEq, Eq, Structural)]
pub enum HealthStatus {
    Up,
    Down,
    Degraded,
}

/// Errors of the API.
#[derive(Debug)]
pub enum ApiError {
    InvalidRequest(String),
    EventProcessingError(String),
    ReasoningError(String),
    GraphError(String),
    InternalError(String),
}

impl ApiError {
    /// The text of the error message.
    pub open spec fn message_spec(&self) -> Seq<char> {
        match self {
            ApiError::InvalidRequest(m) => "Invalid request: "@ + m@,
            ApiError::EventProcessingError(m) => "Event processing error: "@ + m@,
            ApiError::ReasoningError(m) => "Reasoning error: "@ + m@,
            ApiError::GraphError(m) => "Graph operation error: "@ + m@,
            ApiError::InternalError(m) => "Internal server error: "@ + m@,
        }
    }

    /// The error message.
    pub fn to_string(&self) -> (r: String)
        ensures
            r@ == self.message_spec(),
    {
        match self {
            ApiError::InvalidRequest(m) => join("Invalid request: ", m.as_str()),
            ApiError::EventProcessingError(m) => join("Event processing error: ", m.as_str()),
            ApiError::ReasoningError(m) => join("Reasoning error: ", m.as_str()),
            ApiError::GraphError(m) => join("Graph operation error: ", m.as_str()),
            ApiError::InternalError(m) => join("Internal server error: ", m.as_str()),
        }
    }
}

} // verus!
