//! Configuration of the Kubernetes operator: the custom resource's parts,
//! their defaults, and a builder for the operator settings.

pub mod reconciler;

use vstd::prelude::*;

verus! {

/// Operator settings.
#[derive(Debug, Clone)]
pub struct OperatorConfig {
    pub namespace: String,
    pub image_registry: String,
    pub image_tag: String,
    pub enable_scaling: bool,
    pub enable_monitoring: bool,
    pub default_replicas: u32,
    pub max_replicas: u32,
    pub min_replicas: u32,
}

impl Default for OperatorConfig {
    fn default() -> (r: Self)
        ensures
            r.namespace@ == "default"@,
            r.image_registry@ == "ghcr.io/gftdcojp/fukurow"@,
            r.image_tag@ == "latest"@,
            r.enable_scaling,
            r.enable_monitoring,
            r.default_replicas == 3,
            r.max_replicas == 10,
            r.min_replicas == 1,
    {
        OperatorConfig {
            namespace: "default".to_string(),
            image_registry: "ghcr.io/gftdcojp/fukurow".to_string(),
            image_tag: "latest".to_string(),
            enable_scaling: true,
            enable_monitoring: true,
            default_replicas: 3,
            max_replicas: 10,
            min_replicas: 1,
        }
    }
}

/// Fluent construction of the operator settings.
#[derive(Debug)]
pub struct OperatorBuilder {
    pub config: OperatorConfig,
}

impl OperatorBuilder {
    /// A builder holding the default settings.
    pub fn new() -> (r: Self)
        ensures
            r.config.namespace@ == "default"@,
            r.config.image_registry@ == "ghcr.io/gftdcojp/fukurow"@,
            r.config.image_tag@ == "latest"@,
            r.config.enable_scaling,
            r.config.enable_monitoring,
            r.config.default_replicas == 3,
            r.config.max_replicas == 10,
            r.config.min_replicas == 1,
    {
        OperatorBuilder { config: OperatorConfig::default() }
    }

    pub fn namespace(self, namespace: String) -> (r: Self)
        ensures
            r.config == (OperatorConfig { namespace: namespace, ..self.config }),
    {
        let mut b = self;
        b.config.namespace = namespace;
        b
    }

    pub fn image_registry(self, registry: String) -> (r: Self)
        ensures
            r.config == (OperatorConfig { image_registry: registry, ..self.config }),
    {
        let mut b = self;
        b.config.image_registry = registry;
        b
    }

    pub fn image_tag(self, tag: String) -> (r: Self)
        ensures
            r.config == (OperatorConfig { image_tag: tag, ..self.config }),
    {
        let mut b = self;
        b.config.image_tag = tag;
        b
    }

    pub fn enable_scaling(self, enable: bool) -> (r: Self)
        ensures
            r.config == (OperatorConfig { enable_scaling: enable, ..self.config }),
    {
        let mut b = self;
        b.config.enable_scaling = enable;
        b
    }

    pub fn enable_monitoring(self, enable: bool) -> (r: Self)
        ensures
            r.config == (OperatorConfig { enable_monitoring: enable, ..self.config }),
    {
        let mut b = self;
        b.config.enable_monitoring = enable;
        b
    }

    pub fn default_replicas(self, replicas: u32) -> (r: Self)
        ensures
            r.config == (OperatorConfig { default_replicas: replicas, ..self.config }),
    {
        let mut b = self;
        b.config.default_replicas = replicas;
        b
    }

    pub fn max_replicas(self, max: u32) -> (r: Self)
        ensures
            r.config == (OperatorConfig { max_replicas: max, ..self.config }),
    {
        let mut b = self;
        b.config.max_replicas = max;
        b
    }

    pub fn min_replicas(self, min: u32) -> (r: Self)
        ensures
            r.config == (OperatorConfig { min_replicas: min, ..self.config }),
    {
        let mut b = self;
        b.config.min_replicas = min;
        b
    }
}

impl Default for OperatorBuilder {
    fn default() -> (r: Self)
        ensures
            r.config.namespace@ == "default"@,
            r.config.default_replicas == 3,
    {
        Self::new()
    }
}

/// Container image of the cluster.
#[derive(Debug, Clone)]
pub struct ImageSpec {
    pub registry: String,
    pub repository: String,
    pub tag: String,
    pub pull_policy: PullPolicy,
}

/// When the image is pulled.
#[derive(Debug, Clone, Copy, PartialEq, Eq, Structural)]
pub enum PullPolicy {
    IfNotPresent,
    Always,
    Never,
}

impl Default for PullPolicy {
    fn default() -> (r: Self)
        ensures
            r == PullPolicy::IfNotPresent,
    {
        PullPolicy::IfNotPresent
    }
}

/// Requested and limiting resources.
#[derive(Debug, Clone)]
pub struct ResourceRequirements {
    pub requests: ResourceQuantity,
    pub limits: ResourceQuantity,
}

/// CPU and memory amounts, in Kubernetes notation.
#[derive(Debug, Clone)]
pub struct ResourceQuantity {
    pub cpu: String,
    pub memory: String,
}

/// Configuration of the deployed cluster.
#[derive(Debug, Clone)]
pub struct ClusterConfig {
    pub server: ServerConfig,
    pub engine: EngineConfig,
    pub security: SecurityConfig,
    /// Additional environment variables, each name once
    pub env_vars: Vec<(String, String)>,
}

/// HTTP server of a cluster node.
#[derive(Debug, Clone)]
pub struct ServerConfig {
    pub port: u16,
    pub host: String,
    pub max_connections: u32,
    pub timeout_seconds: u32,
}

/// Default host binding.
pub fn default_host() -> (r: String)
    ensures
        r@ == "0.0.0.0"@,
{
    "0.0.0.0".to_string()
}

/// Default maximum of connections.
pub fn default_max_connections() -> (r: u32)
    ensures
        r == 1000,
{
    1000
}

/// Default request timeout in seconds.
pub fn default_timeout() -> (r: u32)
    ensures
        r == 30,
{
    30
}

/// Reasoning engine of a cluster node.
#[derive(Debug, Clone)]
pub struct EngineConfig {
    pub max_concurrent_tasks: usize,
    pub reasoning_timeout_seconds: u32,
    pub batch_size: usize,
}

/// Default maximum of concurrent reasoning tasks.
pub fn default_max_tasks() -> (r: usize)
    ensures
        r == 10,
{
    10
}

/// Default reasoning timeout in seconds.
pub fn default_reasoning_timeout() -> (r: u32)
    ensures
        r == 60,
{
    60
}

/// Default rule evaluation batch size.
pub fn default_batch_size() -> (r: usize)
    ensures
        r == 100,
{
    100
}

/// Security settings.
#[derive(Debug, Clone)]
pub struct SecurityConfig {
    pub tls_enabled: bool,
    pub tls_secret_name: Option<String>,
    pub auth: AuthConfig,
    pub siem: SiemConfig,
}

impl Default for SecurityConfig {
    fn default() -> (r: Self)
        ensures
            !r.tls_enabled,
            r.tls_secret_name is None,
            !r.auth.enabled,
            r.auth.jwt_secret_name is None,
            r.auth.oauth2 is None,
            !r.siem.enabled,
            r.siem.endpoints@.len() == 0,
    {
        SecurityConfig { tls_enabled: false, tls_secret_name: None, auth: AuthConfig::default(), siem: SiemConfig::default() }
    }
}

/// Authentication settings.
#[derive(Debug, Clone)]
pub struct AuthConfig {
    pub enabled: bool,
    pub jwt_secret_name: Option<String>,
    pub oauth2: Option<OAuth2Config>,
}

impl Default for AuthConfig {
    fn default() -> (r: Self)
        ensures
            !r.enabled,
            r.jwt_secret_name is None,
            r.oauth2 is None,
    {
        AuthConfig { enabled: false, jwt_secret_name: None, oauth2: None }
    }
}

/// OAuth2 provider settings.
#[derive(Debug, Clone)]
pub struct OAuth2Config {
    pub provider: String,
    pub client_id: String,
    pub client_secret_name: String,
    pub redirect_url: String,
}

/// SIEM forwarding of a cluster.
#[derive(Debug, Clone)]
pub struct SiemConfig {
    pub enabled: bool,
    pub endpoints: Vec<SiemEndpoint>,
}

impl Default for SiemConfig {
    fn default() -> (r: Self)
        ensures
            !r.enabled,
            r.endpoints@.len() == 0,
    {
        SiemConfig { enabled: false, endpoints: Vec::new() }
    }
}

/// One SIEM endpoint.
#[derive(Debug, Clone)]
pub struct SiemEndpoint {
    pub name: String,
    pub siem_type: String,
    pub url: String,
    pub token_secret_name: Option<String>,
}

/// Storage of a cluster.
#[derive(Debug, Clone)]
pub struct StorageSpec {
    pub storage_type: StorageType,
    pub storage_class: Option<String>,
    pub size: String,
    pub pvc: PvcSpec,
}

/// Kind of storage.
#[derive(Debug, Clone, Copy, PartialEq, Eq, Structural)]
pub enum StorageType {
    PersistentVolume,
    EmptyDir,
    HostPath,
    ConfigMap,
}

/// Persistent volume claim settings.
#[derive(Debug, Clone)]
pub struct PvcSpec {
    pub access_modes: Vec<String>,
    pub volume_mode: String,
}

impl Default for PvcSpec {
    fn default() -> (r: Self)
        ensures
            r.access_modes@.len() == 0,
            r.volume_mode@ == Seq::<char>::empty(),
    {
        PvcSpec { access_modes: Vec::new(), volume_mode: String::new() }
    }
}

/// Default access modes of a claim.
pub fn default_access_modes() -> (r: Vec<String>)
    ensures
        r@.len() == 1,
        r@[0]@ == "ReadWriteOnce"@,
{
    let mut v: Vec<String> = Vec::new();
    v.push("ReadWriteOnce".to_string());
    v
}

/// Default volume mode of a claim.
pub fn default_volume_mode() -> (r: String)
    ensures
        r@ == "Filesystem"@,
{
    "Filesystem".to_string()
}

/// Monitoring settings.
#[derive(Debug, Clone)]
pub struct MonitoringSpec {
    pub prometheus_enabled: bool,
    pub metrics_port: u16,
    pub health_checks_enabled: bool,
    pub health_port: u16,
    pub tracing_enabled: bool,
    pub tracing_endpoint: Option<String>,
}

impl Default for MonitoringSpec {
    /// Prometheus metrics on, everything else off or 0.
    fn default() -> (r: Self)
        ensures
            r.prometheus_enabled,
            r.metrics_port == 0,
            !r.health_checks_enabled,
            r.health_port == 0,
            !r.tracing_enabled,
            r.tracing_endpoint is None,
    {
        MonitoringSpec {
            prometheus_enabled: true,
            metrics_port: 0,
            health_checks_enabled: false,
            health_port: 0,
            tracing_enabled: false,
            tracing_endpoint: None,
        }
    }
}

/// Default metrics port.
pub fn default_metrics_port() -> (r: u16)
    ensures
        r == 9090,
{
    9090
}

/// Default health check port.
pub fn default_health_port() -> (r: u16)
    ensures
        r == 8080,
{
    8080
}

/// Default of the switches that are on unless set.
pub fn default_true() -> (r: bool)
    ensures
        r,
{
    true
}

/// Default minimum of replicas.
pub fn default_min_replicas() -> (r: u32)
    ensures
        r == 1,
{
    1
}

/// Default maximum of replicas.
pub fn default_max_replicas() -> (r: u32)
    ensures
        r == 10,
{
    10
}

/// Default target CPU utilization in percent.
pub fn default_target_cpu() -> (r: u32)
    ensures
        r == 70,
{
    70
}

/// Default target memory utilization in percent.
pub fn default_target_memory() -> (r: u32)
    ensures
        r == 80,
{
    80
}

/// Default Kubernetes service type.
pub fn default_service_type() -> (r: String)
    ensures
        r@ == "ClusterIP"@,
{
    "ClusterIP".to_string()
}

/// Ingress settings.
#[derive(Debug, Clone)]
pub struct IngressSpec {
    pub enabled: bool,
    pub class_name: Option<String>,
    pub hosts: Vec<String>,
    pub tls: Vec<IngressTls>,
    /// Annotations, each key once
    pub annotations: Vec<(String, String)>,
}

/// TLS of an ingress.
#[derive(Debug, Clone)]
pub struct IngressTls {
    pub secret_name: String,
    pub hosts: Vec<String>,
}

/// Observed state of a cluster.
#[derive(Debug, Clone)]
pub struct FukurowClusterStatus {
    pub phase: ClusterPhase,
    pub ready_replicas: u32,
    pub replicas: u32,
    pub available_replicas: u32,
    pub unavailable_replicas: u32,
    pub conditions: Vec<ClusterCondition>,
    pub last_update: Option<String>,
    pub version: Option<String>,
}

impl Default for FukurowClusterStatus {
    fn default() -> (r: Self)
        ensures
            r.phase == ClusterPhase::Pending,
            r.ready_replicas == 0,
            r.replicas == 0,
            r.available_replicas == 0,
            r.unavailable_replicas == 0,
            r.conditions@.len() == 0,
            r.last_update is None,
            r.version is None,
    {
        FukurowClusterStatus {
            phase: ClusterPhase::default(),
            ready_replicas: 0,
            replicas: 0,
            available_replicas: 0,
            unavailable_replicas: 0,
            conditions: Vec::new(),
            last_update: None,
            version: None,
        }
    }
}

/// Lifecycle phase of a cluster.
#[derive(Debug, Clone, Copy, PartialEq, Eq, Structural)]
pub enum ClusterPhase {
    Pending,
    Creating,
    Running,
    Updating,
    Failed,
    Deleting,
}

impl Default for ClusterPhase {
    fn default() -> (r: Self)
        ensures
            r == ClusterPhase::Pending,
    {
        ClusterPhase::Pending
    }
}

/// One condition of a cluster.
#[derive(Debug, Clone)]
pub struct ClusterCondition {
    pub type_: String,
    pub status: String,
    pub last_transition_time: String,
    pub reason: String,
    pub message: String,
}

} // verus!
