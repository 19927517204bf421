use fukurow::operator::{OperatorConfig, OperatorBuilder, FukurowClusterStatus, ClusterPhase};

#[test]
fn test_operator_config_default() {
    let config = OperatorConfig::default();
    assert_eq!(config.namespace, "default");
    assert_eq!(config.default_replicas, 3);
    assert_eq!(config.max_replicas, 10);
    assert!(config.enable_scaling);
}

#[test]
fn test_operator_builder() {
    let builder = OperatorBuilder::new()
        .namespace("test-ns".to_string())
        .image_registry("test-registry".to_string())
        .default_replicas(5)
        .enable_scaling(false);
    assert_eq!(builder.config.namespace, "test-ns");
    assert_eq!(builder.config.image_registry, "test-registry");
    assert_eq!(builder.config.default_replicas, 5);
    assert!(!builder.config.enable_scaling);
}

#[test]
fn test_cluster_status_default() {
    let status = FukurowClusterStatus::default();
    assert!(matches!(status.phase, ClusterPhase::Pending));
    assert_eq!(status.ready_replicas, 0);
    assert_eq!(status.replicas, 0);
}

#[test]
fn test_builder_setters_touch_one_field() {
    let base = OperatorBuilder::new();
    let changed = OperatorBuilder::new().max_replicas(42).min_replicas(2);
    assert_eq!(changed.config.max_replicas, 42);
    assert_eq!(changed.config.min_replicas, 2);
    assert_eq!(changed.config.namespace, base.config.namespace);
    assert_eq!(changed.config.default_replicas, base.config.default_replicas);
}

use fukurow::operator::{ClusterConfig, EngineConfig, ImageSpec, IngressSpec, IngressTls, MonitoringSpec,
    PullPolicy, ResourceQuantity, ResourceRequirements, SecurityConfig, ServerConfig};
use fukurow::operator::reconciler::{cluster_labels, create_deployment, create_ingress, create_service, generate_config_data,
    next_cluster_status, ClusterModel, DeploymentCounts};

fn value_of<'a>(pairs: &'a [(String, String)], key: &str) -> Option<&'a String> {
    pairs.iter().find(|(k, _)| k == key).map(|(_, v)| v)
}

fn test_cluster() -> ClusterModel {
    ClusterModel {
        name: "test-cluster".to_string(),
        namespace: Some("default".to_string()),
        uid: None,
        replicas: 3,
        image: ImageSpec {
            registry: "ghcr.io/gftdcojp".to_string(),
            repository: "fukurow".to_string(),
            tag: "latest".to_string(),
            pull_policy: PullPolicy::IfNotPresent,
        },
        resources: ResourceRequirements {
            requests: ResourceQuantity { cpu: "100m".to_string(), memory: "128Mi".to_string() },
            limits: ResourceQuantity { cpu: "500m".to_string(), memory: "512Mi".to_string() },
        },
        config: ClusterConfig {
            server: ServerConfig { port: 3000, host: "0.0.0.0".to_string(), max_connections: 1000, timeout_seconds: 30 },
            engine: EngineConfig { max_concurrent_tasks: 10, reasoning_timeout_seconds: 60, batch_size: 100 },
            security: SecurityConfig::default(),
            env_vars: Vec::new(),
        },
        monitoring: MonitoringSpec::default(),
        service_type: "ClusterIP".to_string(),
        ingress: None,
    }
}

#[test]
fn test_generate_config_data() {
    let cluster = test_cluster();
    let config_data = generate_config_data(&cluster);
    assert_eq!(value_of(&config_data, "FUROW_SERVER_PORT"), Some(&"3000".to_string()));
    assert_eq!(value_of(&config_data, "FUROW_MAX_CONCURRENT_TASKS"), Some(&"10".to_string()));
    assert_eq!(value_of(&config_data, "FUROW_METRICS_ENABLED"), Some(&"true".to_string()));
}

#[test]
fn test_cluster_labels() {
    let cluster = test_cluster();
    let labels = cluster_labels(&cluster);
    assert_eq!(value_of(&labels, "app.kubernetes.io/name"), Some(&"fukurow".to_string()));
    assert_eq!(value_of(&labels, "app.kubernetes.io/instance"), Some(&"test-cluster".to_string()));
    assert_eq!(value_of(&labels, "app.kubernetes.io/version"), Some(&"latest".to_string()));
}

#[test]
fn test_deployment_and_service_plans() {
    let mut cluster = test_cluster();
    cluster.config.env_vars = vec![("RUST_LOG".to_string(), "info".to_string())];
    cluster.uid = Some("abc".to_string());
    let d = create_deployment(&cluster);
    assert_eq!(d.replicas, 3);
    assert_eq!(d.container.image, "ghcr.io/gftdcojp/fukurow:latest");
    assert_eq!(d.container.image_pull_policy, "IfNotPresent");
    assert_eq!(d.container.container_port, 3000);
    assert_eq!(d.container.env, vec![("RUST_LOG".to_string(), "info".to_string())]);
    assert_eq!(d.container.resources.limits, vec![("cpu".to_string(), "500m".to_string()), ("memory".to_string(), "512Mi".to_string())]);
    assert_eq!(d.config_map_name, "test-cluster-config");
    assert_eq!(d.metadata.name, "test-cluster");
    assert_eq!(d.pod_metadata.name, "fukurow");
    assert_eq!(d.metadata.owner.uid, "abc");
    assert_eq!(d.metadata.owner.kind, "FukurowCluster");

    let s = create_service(&cluster);
    assert_eq!(s.metadata.name, "test-cluster-service");
    assert_eq!(s.port, 3000);
    assert_eq!(s.service_type, "ClusterIP");
}

#[test]
fn test_ingress_plan() {
    let mut cluster = test_cluster();
    assert_eq!(create_ingress(&cluster).unwrap_err(), "Ingress spec is required");
    cluster.ingress = Some(IngressSpec {
        enabled: true,
        class_name: None,
        hosts: vec!["a.example".to_string(), "b.example".to_string()],
        tls: Vec::new(),
        annotations: Vec::new(),
    });
    let plan = create_ingress(&cluster).unwrap();
    assert_eq!(plan.rules.len(), 2);
    assert_eq!(plan.rules[1].host, "b.example");
    assert_eq!(plan.rules[0].service_name, "test-cluster-service");
    assert!(plan.tls.is_none());
    cluster.ingress.as_mut().unwrap().tls = vec![IngressTls { secret_name: "cert".to_string(), hosts: vec!["a.example".to_string()] }];
    let plan = create_ingress(&cluster).unwrap();
    assert_eq!(plan.tls.unwrap()[0].secret_name, "cert");
}

#[test]
fn test_next_cluster_status() {
    let cluster = test_cluster();
    let s = next_cluster_status(None, None, "t0".to_string(), &cluster);
    assert_eq!(s.phase, ClusterPhase::Creating);
    assert_eq!(s.replicas, 0);
    assert_eq!(s.version, Some("latest".to_string()));
    let counts = DeploymentCounts { ready_replicas: Some(2), replicas: Some(3), available_replicas: Some(2) };
    let s = next_cluster_status(Some(FukurowClusterStatus::default()), Some(counts), "t1".to_string(), &cluster);
    assert_eq!(s.phase, ClusterPhase::Running);
    assert_eq!(s.unavailable_replicas, 1);
    assert_eq!(s.last_update, Some("t1".to_string()));
    let over = DeploymentCounts { ready_replicas: None, replicas: Some(1), available_replicas: Some(4) };
    let s = next_cluster_status(None, Some(over), "t2".to_string(), &cluster);
    assert_eq!(s.phase, ClusterPhase::Creating);
    assert_eq!(s.unavailable_replicas, 0);
}
