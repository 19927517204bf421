//! What the operator asks Kubernetes for, for a cluster: the deployment,
//! service, ingress and configuration it builds, as plain values, and the
//! status it records. Talking to Kubernetes is left to the program around
//! the library.

use vstd::prelude::*;
use crate::operator::{ClusterConfig, FukurowClusterStatus, ClusterPhase, ImageSpec, IngressSpec, IngressTls, MonitoringSpec, PullPolicy, ResourceRequirements};
use crate::text::{bool_text, bool_to_string, decimal, decimal_spec, join, usize_to_u64};
use crate::closure::node_views;
use crate::siem::opt_view;

verus! {

/// What the reconciler reads of a FukurowCluster: its name, namespace and
/// uid, and the parts of its spec the resources are built from.
#[derive(Debug, Clone)]
pub struct ClusterModel {
    pub name: String,
    pub namespace: Option<String>,
    pub uid: Option<String>,
    pub replicas: u32,
    pub image: ImageSpec,
    pub resources: ResourceRequirements,
    pub config: ClusterConfig,
    pub monitoring: MonitoringSpec,
    pub service_type: String,
    pub ingress: Option<IngressSpec>,
}

/// The owner reference that ties a resource to its cluster.
#[derive(Debug, Clone)]
pub struct OwnerPlan {
    pub api_version: String,
    pub kind: String,
    pub name: String,
    pub uid: String,
    pub controller: bool,
    pub block_owner_deletion: bool,
}

/// Name, namespace, labels and owner of a resource.
#[derive(Debug, Clone)]
pub struct MetaPlan {
    pub name: String,
    pub namespace: Option<String>,
    pub labels: Vec<(String, String)>,
    pub owner: OwnerPlan,
}

/// Requested and limiting amounts by resource name.
#[derive(Debug, Clone)]
pub struct ResourcePlan {
    pub requests: Vec<(String, String)>,
    pub limits: Vec<(String, String)>,
}

/// The container of the deployment.
#[derive(Debug, Clone)]
pub struct ContainerPlan {
    pub name: String,
    pub image: String,
    pub image_pull_policy: String,
    pub container_port: i32,
    pub protocol: String,
    pub env: Vec<(String, String)>,
    pub resources: ResourcePlan,
    pub mount_name: String,
    pub mount_path: String,
}

/// The deployment of a cluster.
#[derive(Debug, Clone)]
pub struct DeploymentPlan {
    pub metadata: MetaPlan,
    pub replicas: i32,
    pub selector: Vec<(String, String)>,
    pub pod_metadata: MetaPlan,
    pub container: ContainerPlan,
    pub volume_name: String,
    pub config_map_name: String,
}

/// The service of a cluster.
#[derive(Debug, Clone)]
pub struct ServicePlan {
    pub metadata: MetaPlan,
    pub selector: Vec<(String, String)>,
    pub port_name: String,
    pub port: i32,
    pub target_port: i32,
    pub protocol: String,
    pub service_type: String,
}

/// One host of an ingress, routed to the cluster's service.
#[derive(Debug, Clone)]
pub struct IngressRulePlan {
    pub host: String,
    pub path: String,
    pub path_type: String,
    pub service_name: String,
    pub port: i32,
}

/// TLS of hosts of an ingress.
#[derive(Debug, Clone)]
pub struct IngressTlsPlan {
    pub hosts: Vec<String>,
    pub secret_name: String,
}

/// The ingress of a cluster.
#[derive(Debug, Clone)]
pub struct IngressPlan {
    pub metadata: MetaPlan,
    pub rules: Vec<IngressRulePlan>,
    pub tls: Option<Vec<IngressTlsPlan>>,
}

/// The values of a list of pairs of strings.
pub open spec fn pairs_view(s: Seq<(String, String)>) -> Seq<(Seq<char>, Seq<char>)> {
    s.map_values(|p: (String, String)| (p.0@, p.1@))
}

/// The labels of every resource of a cluster.
pub open spec fn labels_spec(c: ClusterModel) -> Seq<(Seq<char>, Seq<char>)> {
    seq![
        ("app.kubernetes.io/name"@, "fukurow"@),
        ("app.kubernetes.io/instance"@, c.name@),
        ("app.kubernetes.io/version"@, c.image.tag@),
        ("app.kubernetes.io/component"@, "reasoning-engine"@),
        ("app.kubernetes.io/part-of"@, "fukurow-cluster"@),
    ]
}

/// The metadata of a resource of a cluster under `name`.
pub open spec fn meta_spec(m: MetaPlan, c: ClusterModel, name: Seq<char>) -> bool {
    &&& m.name@ == name
    &&& opt_view(m.namespace) == opt_view(c.namespace)
    &&& pairs_view(m.labels@) == labels_spec(c)
    &&& m.owner.api_version@ == "fukurow.io/v1"@
    &&& m.owner.kind@ == "FukurowCluster"@
    &&& m.owner.name@ == c.name@
    &&& m.owner.uid@ == (match c.uid { Some(u) => u@, None => Seq::<char>::empty() })
    &&& m.owner.controller
    &&& m.owner.block_owner_deletion
}

/// The word of a pull policy.
pub open spec fn pull_policy_text(p: PullPolicy) -> Seq<char> {
    match p {
        PullPolicy::IfNotPresent => "IfNotPresent"@,
        PullPolicy::Always => "Always"@,
        PullPolicy::Never => "Never"@,
    }
}

/// The configuration a cluster's nodes read, by variable name.
pub open spec fn config_data_spec(c: ClusterModel) -> Seq<(Seq<char>, Seq<char>)> {
    seq![
        ("FUROW_SERVER_PORT"@, decimal_spec(c.config.server.port as nat)),
        ("FUROW_SERVER_HOST"@, c.config.server.host@),
        ("FUROW_MAX_CONNECTIONS"@, decimal_spec(c.config.server.max_connections as nat)),
        ("FUROW_MAX_CONCURRENT_TASKS"@, decimal_spec(c.config.engine.max_concurrent_tasks as nat)),
        ("FUROW_REASONING_TIMEOUT"@, decimal_spec(c.config.engine.reasoning_timeout_seconds as nat)),
        ("FUROW_BATCH_SIZE"@, decimal_spec(c.config.engine.batch_size as nat)),
        ("FUROW_TLS_ENABLED"@, bool_text(c.config.security.tls_enabled)),
        ("FUROW_METRICS_ENABLED"@, bool_text(c.monitoring.prometheus_enabled)),
        ("FUROW_METRICS_PORT"@, decimal_spec(c.monitoring.metrics_port as nat)),
    ]
}

/// A pair of strings.
fn pair(a: &str, b: &str) -> (r: (String, String))
    ensures
        r.0@ == a@,
        r.1@ == b@,
{
    (a.to_string(), b.to_string())
}

/// Push a pair of strings.
fn push_pair(v: &mut Vec<(String, String)>, a: &str, b: &str)
    ensures
        pairs_view(final(v)@) == pairs_view(old(v)@).push((a@, b@)),
{
    let ghost before = v@;
    v.push(pair(a, b));
    proof {
        assert(pairs_view(v@) =~= pairs_view(before).push((a@, b@)));
    }
}

/// A copy of a list of pairs of strings.
fn copy_pairs(v: &Vec<(String, String)>) -> (r: Vec<(String, String)>)
    ensures
        pairs_view(r@) == pairs_view(v@),
{
    let mut out: Vec<(String, String)> = Vec::new();
    let mut i: usize = 0;
    while i < v.len()
        invariant
            i <= v@.len(),
            pairs_view(out@) == pairs_view(v@.take(i as int)),
        decreases v.len() - i,
    {
        proof {
            assert(v@.take(i + 1) =~= v@.take(i as int).push(v@[i as int]));
        }
        push_pair(&mut out, v[i].0.as_str(), v[i].1.as_str());
        proof {
            assert(pairs_view(v@.take(i + 1)) =~= pairs_view(v@.take(i as int)).push((v@[i as int].0@, v@[i as int].1@)));
        }
        i += 1;
    }
    proof {
        assert(v@.take(v@.len() as int) =~= v@);
    }
    out
}

/// The labels of every resource of a cluster.
pub fn cluster_labels(cluster: &ClusterModel) -> (r: Vec<(String, String)>)
    ensures
        pairs_view(r@) == labels_spec(*cluster),
{
    let mut labels: Vec<(String, String)> = Vec::new();
    push_pair(&mut labels, "app.kubernetes.io/name", "fukurow");
    push_pair(&mut labels, "app.kubernetes.io/instance", cluster.name.as_str());
    push_pair(&mut labels, "app.kubernetes.io/version", cluster.image.tag.as_str());
    push_pair(&mut labels, "app.kubernetes.io/component", "reasoning-engine");
    push_pair(&mut labels, "app.kubernetes.io/part-of", "fukurow-cluster");
    proof {
        assert(pairs_view(labels@) =~= labels_spec(*cluster));
    }
    labels
}

/// The metadata of a resource of a cluster: the name, the cluster's
/// namespace and labels, and the cluster as controlling owner. (The kind of
/// the resource does not enter it.)
pub fn metadata_with_labels(cluster: &ClusterModel, name: &str, kind: &str) -> (r: MetaPlan)
    ensures
        meta_spec(r, *cluster, name@),
{
    let uid = match &cluster.uid {
        Some(u) => u.clone(),
        None => "".to_string(),
    };
    proof {
        reveal_strlit("");
        assert(uid@ == (match cluster.uid { Some(u) => u@, None => Seq::<char>::empty() }));
    }
    let namespace = match &cluster.namespace {
        Some(n) => Some(n.clone()),
        None => None,
    };
    let r = MetaPlan {
        name: name.to_string(),
        namespace,
        labels: cluster_labels(cluster),
        owner: OwnerPlan {
            api_version: "fukurow.io/v1".to_string(),
            kind: "FukurowCluster".to_string(),
            name: cluster.name.clone(),
            uid,
            controller: true,
            block_owner_deletion: true,
        },
    };
    proof {
        assert(opt_view(r.namespace) == opt_view(cluster.namespace));
        assert(r.owner.uid@ == (match cluster.uid { Some(u) => u@, None => Seq::<char>::empty() }));
    }
    r
}

/// The requested and limiting CPU and memory, in key order.
pub fn create_resource_requirements(req: &ResourceRequirements) -> (r: ResourcePlan)
    ensures
        pairs_view(r.requests@) == seq![("cpu"@, req.requests.cpu@), ("memory"@, req.requests.memory@)],
        pairs_view(r.limits@) == seq![("cpu"@, req.limits.cpu@), ("memory"@, req.limits.memory@)],
{
    let mut requests: Vec<(String, String)> = Vec::new();
    push_pair(&mut requests, "cpu", req.requests.cpu.as_str());
    push_pair(&mut requests, "memory", req.requests.memory.as_str());
    let mut limits: Vec<(String, String)> = Vec::new();
    push_pair(&mut limits, "cpu", req.limits.cpu.as_str());
    push_pair(&mut limits, "memory", req.limits.memory.as_str());
    proof {
        assert(pairs_view(requests@) =~= seq![("cpu"@, req.requests.cpu@), ("memory"@, req.requests.memory@)]);
        assert(pairs_view(limits@) =~= seq![("cpu"@, req.limits.cpu@), ("memory"@, req.limits.memory@)]);
    }
    ResourcePlan { requests, limits }
}

/// The configuration the cluster's nodes read.
pub fn generate_config_data(cluster: &ClusterModel) -> (r: Vec<(String, String)>)
    ensures
        pairs_view(r@) == config_data_spec(*cluster),
{
    let c = &cluster.config;
    let mut data: Vec<(String, String)> = Vec::new();
    let port = decimal(c.server.port as u64);
    push_pair(&mut data, "FUROW_SERVER_PORT", port.as_str());
    push_pair(&mut data, "FUROW_SERVER_HOST", c.server.host.as_str());
    let max_connections = decimal(c.server.max_connections as u64);
    push_pair(&mut data, "FUROW_MAX_CONNECTIONS", max_connections.as_str());
    let tasks = decimal(usize_to_u64(c.engine.max_concurrent_tasks));
    push_pair(&mut data, "FUROW_MAX_CONCURRENT_TASKS", tasks.as_str());
    let timeout = decimal(c.engine.reasoning_timeout_seconds as u64);
    push_pair(&mut data, "FUROW_REASONING_TIMEOUT", timeout.as_str());
    let batch = decimal(usize_to_u64(c.engine.batch_size));
    push_pair(&mut data, "FUROW_BATCH_SIZE", batch.as_str());
    let tls = bool_to_string(c.security.tls_enabled);
    push_pair(&mut data, "FUROW_TLS_ENABLED", tls.as_str());
    let metrics = bool_to_string(cluster.monitoring.prometheus_enabled);
    push_pair(&mut data, "FUROW_METRICS_ENABLED", metrics.as_str());
    let metrics_port = decimal(cluster.monitoring.metrics_port as u64);
    push_pair(&mut data, "FUROW_METRICS_PORT", metrics_port.as_str());
    proof {
        assert(pairs_view(data@) =~= config_data_spec(*cluster));
    }
    data
}

/// The deployment of a cluster: as many replicas as the spec asks, one
/// container of the cluster's image with its port, environment and
/// resources, and the cluster's configuration mounted at /app/config.
pub fn create_deployment(cluster: &ClusterModel) -> (r: DeploymentPlan)
    ensures
        meta_spec(r.metadata, *cluster, cluster.name@),
        meta_spec(r.pod_metadata, *cluster, "fukurow"@),
        r.replicas == cluster.replicas as i32,
        pairs_view(r.selector@) == labels_spec(*cluster),
        r.container.name@ == "fukurow"@,
        r.container.image@ == cluster.image.registry@ + "/"@ + cluster.image.repository@ + ":"@ + cluster.image.tag@,
        r.container.image_pull_policy@ == pull_policy_text(cluster.image.pull_policy),
        r.container.container_port == cluster.config.server.port as i32,
        r.container.protocol@ == "TCP"@,
        pairs_view(r.container.env@) == pairs_view(cluster.config.env_vars@),
        pairs_view(r.container.resources.requests@) == seq![("cpu"@, cluster.resources.requests.cpu@), ("memory"@, cluster.resources.requests.memory@)],
        pairs_view(r.container.resources.limits@) == seq![("cpu"@, cluster.resources.limits.cpu@), ("memory"@, cluster.resources.limits.memory@)],
        r.container.mount_name@ == "config"@,
        r.container.mount_path@ == "/app/config"@,
        r.volume_name@ == "config"@,
        r.config_map_name@ == cluster.name@ + "-config"@,
{
    let labels = cluster_labels(cluster);
    let image = join(join(join(join(cluster.image.registry.as_str(), "/").as_str(), cluster.image.repository.as_str()).as_str(), ":").as_str(), cluster.image.tag.as_str());
    let pull = match cluster.image.pull_policy {
        PullPolicy::IfNotPresent => "IfNotPresent",
        PullPolicy::Always => "Always",
        PullPolicy::Never => "Never",
    };
    let container = ContainerPlan {
        name: "fukurow".to_string(),
        image,
        image_pull_policy: pull.to_string(),
        container_port: cluster.config.server.port as i32,
        protocol: "TCP".to_string(),
        env: copy_pairs(&cluster.config.env_vars),
        resources: create_resource_requirements(&cluster.resources),
        mount_name: "config".to_string(),
        mount_path: "/app/config".to_string(),
    };
    DeploymentPlan {
        metadata: metadata_with_labels(cluster, cluster.name.as_str(), "Deployment"),
        replicas: cluster.replicas as i32,
        selector: labels,
        pod_metadata: metadata_with_labels(cluster, "fukurow", "Pod"),
        container,
        volume_name: "config".to_string(),
        config_map_name: join(cluster.name.as_str(), "-config"),
    }
}

/// The service of a cluster: the server port, over TCP, to the pods with
/// the cluster's labels.
pub fn create_service(cluster: &ClusterModel) -> (r: ServicePlan)
    ensures
        meta_spec(r.metadata, *cluster, cluster.name@ + "-service"@),
        pairs_view(r.selector@) == labels_spec(*cluster),
        r.port_name@ == "http"@,
        r.port == cluster.config.server.port as i32,
        r.target_port == cluster.config.server.port as i32,
        r.protocol@ == "TCP"@,
        r.service_type@ == cluster.service_type@,
{
    let name = join(cluster.name.as_str(), "-service");
    ServicePlan {
        metadata: metadata_with_labels(cluster, name.as_str(), "Service"),
        selector: cluster_labels(cluster),
        port_name: "http".to_string(),
        port: cluster.config.server.port as i32,
        target_port: cluster.config.server.port as i32,
        protocol: "TCP".to_string(),
        service_type: cluster.service_type.clone(),
    }
}

/// The rule of one ingress host.
pub open spec fn rule_spec(r: IngressRulePlan, host: Seq<char>, c: ClusterModel) -> bool {
    &&& r.host@ == host
    &&& r.path@ == "/"@
    &&& r.path_type@ == "Prefix"@
    &&& r.service_name@ == c.name@ + "-service"@
    &&& r.port == c.config.server.port as i32
}

/// The ingress of a cluster: a rule for each host, routing every path to
/// the cluster's service, and the TLS settings where there are any. A
/// cluster without ingress settings has none.
pub fn create_ingress(cluster: &ClusterModel) -> (r: Result<IngressPlan, String>)
    ensures
        match cluster.ingress {
            None => r matches Err(m) && m@ == "Ingress spec is required"@,
            Some(spec) => r matches Ok(p) && {
                &&& meta_spec(p.metadata, *cluster, cluster.name@ + "-ingress"@)
                &&& p.rules@.len() == spec.hosts@.len()
                &&& forall|i: int| 0 <= i < spec.hosts@.len() ==> rule_spec(#[trigger] p.rules@[i], spec.hosts@[i]@, *cluster)
                &&& (spec.tls@.len() == 0 ==> p.tls is None)
                &&& (spec.tls@.len() > 0 ==> (p.tls matches Some(t) && t@.len() == spec.tls@.len()
                    && forall|i: int| 0 <= i < t@.len() ==> (#[trigger] t@[i]).secret_name@ == spec.tls@[i].secret_name@
                        && node_views(t@[i].hosts@) == node_views(spec.tls@[i].hosts@)))
            },
        },
{
    let spec = match &cluster.ingress {
        Some(s) => s,
        None => {
            return Err("Ingress spec is required".to_string());
        },
    };
    let service_name = join(cluster.name.as_str(), "-service");
    let mut rules: Vec<IngressRulePlan> = Vec::new();
    let mut i: usize = 0;
    while i < spec.hosts.len()
        invariant
            i <= spec.hosts@.len(),
            cluster.ingress == Some(*spec),
            service_name@ == cluster.name@ + "-service"@,
            rules@.len() == i,
            forall|j: int| 0 <= j < i ==> rule_spec(#[trigger] rules@[j], spec.hosts@[j]@, *cluster),
        decreases spec.hosts.len() - i,
    {
        rules.push(IngressRulePlan {
            host: spec.hosts[i].clone(),
            path: "/".to_string(),
            path_type: "Prefix".to_string(),
            service_name: service_name.clone(),
            port: cluster.config.server.port as i32,
        });
        i += 1;
    }
    let mut tls: Vec<IngressTlsPlan> = Vec::new();
    let mut k: usize = 0;
    while k < spec.tls.len()
        invariant
            k <= spec.tls@.len(),
            tls@.len() == k,
            forall|j: int| 0 <= j < k ==> (#[trigger] tls@[j]).secret_name@ == spec.tls@[j].secret_name@
                && node_views(tls@[j].hosts@) == node_views(spec.tls@[j].hosts@),
        decreases spec.tls.len() - k,
    {
        tls.push(IngressTlsPlan {
            hosts: crate::nodeset::copy_nodes(&spec.tls[k].hosts),
            secret_name: spec.tls[k].secret_name.clone(),
        });
        k += 1;
    }
    let name = join(cluster.name.as_str(), "-ingress");
    Ok(IngressPlan {
        metadata: metadata_with_labels(cluster, name.as_str(), "Ingress"),
        rules,
        tls: if tls.len() == 0 { None } else { Some(tls) },
    })
}

/// What a deployment reports of its replicas.
#[derive(Debug, Clone, Copy)]
pub struct DeploymentCounts {
    pub ready_replicas: Option<u32>,
    pub replicas: Option<u32>,
    pub available_replicas: Option<u32>,
}

/// A count that a deployment may not report, 0 when it does not.
pub open spec fn count_or_zero(c: Option<u32>) -> u32 {
    match c {
        Some(n) => n,
        None => 0,
    }
}

/// The status to record for a cluster from what its deployment reports
/// (nothing when the deployment could not be read): running once a replica
/// is ready, creating before; the counts of the deployment, 0 where it
/// reports none, and as unavailable the replicas not available (0 if more
/// are available than there are); the time of the update and the image tag
/// as version. The conditions of the current status are kept.
pub fn next_cluster_status(current: Option<FukurowClusterStatus>, deployment: Option<DeploymentCounts>, now: String, cluster: &ClusterModel) -> (r: FukurowClusterStatus)
    ensures
        r.phase == (match deployment {
            Some(d) => if count_or_zero(d.ready_replicas) > 0 { ClusterPhase::Running } else { ClusterPhase::Creating },
            None => ClusterPhase::Creating,
        }),
        r.ready_replicas == (match deployment { Some(d) => count_or_zero(d.ready_replicas), None => 0u32 }),
        r.replicas == (match deployment { Some(d) => count_or_zero(d.replicas), None => 0u32 }),
        r.available_replicas == (match deployment { Some(d) => count_or_zero(d.available_replicas), None => 0u32 }),
        r.unavailable_replicas == (if r.replicas >= r.available_replicas { (r.replicas - r.available_replicas) as u32 } else { 0u32 }),
        r.last_update matches Some(t) && t@ == now@,
        r.version matches Some(v) && v@ == cluster.image.tag@,
        r.conditions@ == (match current { Some(s) => s.conditions@, None => Seq::empty() }),
{
    let mut status = match current {
        Some(s) => s,
        None => FukurowClusterStatus::default(),
    };
    let (ready, replicas, available) = match deployment {
        Some(d) => (
            match d.ready_replicas { Some(n) => n, None => 0 },
            match d.replicas { Some(n) => n, None => 0 },
            match d.available_replicas { Some(n) => n, None => 0 },
        ),
        None => (0, 0, 0),
    };
    status.phase = if deployment.is_some() && ready > 0 { ClusterPhase::Running } else { ClusterPhase::Creating };
    status.ready_replicas = ready;
    status.replicas = replicas;
    status.available_replicas = available;
    status.unavailable_replicas = replicas.saturating_sub(available);
    status.last_update = Some(now);
    status.version = Some(cluster.image.tag.clone());
    status
}

} // verus!
