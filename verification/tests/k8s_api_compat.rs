//! Kubernetes API compatibility across server versions 1.21 and later.
//!
//! A cluster that the agent runs in can be of any of these versions, so each test
//! takes objects in the shape that they emit through the typed models and holds the
//! fields that the collector reads against what was written.

use k8s_openapi::api;
use k8s_openapi::api::apps::v1::{DaemonSet, Deployment, ReplicaSet, StatefulSet};
use kubesavings_agent::collector;
use kubesavings_agent::collector::{
    add_namespace, build_pod_owner_map, choose_cloud_provider, last_event_days, target_namespaces,
    Container, Degradations, HealthMap, Labels, OwnerReference, PodListing, ResourceRequirements,
    Timestamp, UsageMap, Workload, WorkloadListing, WorkloadMetrics,
};
use kubesavings_agent::config::Config;

/// Every server minor version the agent is expected to support.
const SUPPORTED_MINORS: std::ops::RangeInclusive<u32> = 21..=31;

fn timestamp(t: &k8s_openapi::apimachinery::pkg::apis::meta::v1::Time) -> Timestamp {
    Timestamp::from_nanosecond(t.0.as_nanosecond()).expect("in range")
}

fn at(text: &str) -> Timestamp {
    let ts: k8s_openapi::jiff::Timestamp = text.parse().expect("timestamp parses");
    Timestamp::from_nanosecond(ts.as_nanosecond()).expect("in range")
}

fn rfc3339(ts: &Timestamp) -> String {
    chrono::DateTime::from_timestamp_nanos(ts.as_nanosecond() as i64).to_rfc3339()
}

fn owners(
    refs: Option<Vec<k8s_openapi::apimachinery::pkg::apis::meta::v1::OwnerReference>>,
) -> Vec<OwnerReference> {
    refs.unwrap_or_default()
        .into_iter()
        .map(|o| OwnerReference {
            kind: o.kind,
            name: o.name,
        })
        .collect()
}

fn labels(map: std::collections::BTreeMap<String, String>) -> Labels {
    let mut out = Labels::new();
    for (k, v) in map {
        out.insert(k, v);
    }
    out
}

fn quantities(
    map: Option<
        std::collections::BTreeMap<
            String,
            k8s_openapi::apimachinery::pkg::api::resource::Quantity,
        >,
    >,
) -> Option<Labels> {
    map.map(|m| labels(m.into_iter().map(|(k, q)| (k, q.0)).collect()))
}

fn containers(spec: Option<api::core::v1::PodSpec>) -> Vec<Container> {
    spec.map(|s| s.containers)
        .unwrap_or_default()
        .into_iter()
        .map(|c| Container {
            name: c.name,
            resources: c.resources.map(|r| ResourceRequirements {
                requests: quantities(r.requests),
                limits: quantities(r.limits),
            }),
        })
        .collect()
}

fn pod(p: api::core::v1::Pod) -> collector::Pod {
    collector::Pod {
        name: p.metadata.name,
        labels: p.metadata.labels.map(labels),
        owners: owners(p.metadata.owner_references),
        status: p.status.map(|s| collector::PodStatus {
            start_time: s.start_time.as_ref().map(timestamp),
            container_statuses: vec![],
            qos_class: s.qos_class,
        }),
    }
}

fn replica_set(rs: ReplicaSet) -> collector::ReplicaSet {
    collector::ReplicaSet {
        name: rs.metadata.name,
        owners: owners(rs.metadata.owner_references),
    }
}

fn listing(namespace: &str) -> WorkloadListing {
    WorkloadListing {
        namespace: namespace.to_string(),
        hpas: Some(vec![]),
        scaled_objects: None,
        deployments: Some(vec![]),
        stateful_sets: Some(vec![]),
        daemon_sets: Some(vec![]),
        cron_jobs: Some(vec![]),
        jobs: None,
    }
}

fn rows(l: &WorkloadListing, node_count: u32, now: &Timestamp) -> Vec<WorkloadMetrics> {
    let mut out = Vec::new();
    let mut degraded = Degradations::default();
    add_namespace(
        &mut out,
        l,
        node_count,
        now,
        &HealthMap::new(),
        &UsageMap::new(),
        &mut degraded,
    );
    assert!(degraded.into_vec().is_empty());
    out
}

fn pod_fixture(minor: u32) -> String {
    r#"{
        "apiVersion": "v1",
        "kind": "Pod",
        "metadata": {
            "name": "api-66c8b4d9f7-x2lqz",
            "namespace": "default",
            "creationTimestamp": "2024-01-01T00:00:00Z",
            "ownerReferences": [{
                "apiVersion": "apps/v1",
                "kind": "ReplicaSet",
                "name": "api-66c8b4d9f7",
                "uid": "11111111-1111-1111-1111-111111111111",
                "controller": true,
                "blockOwnerDeletion": true
            }],
            "labels": { "app": "api", "version": "v1.MINOR.3" }
        },
        "spec": {
            "containers": [{
                "name": "main",
                "image": "ghcr.io/acme/api:latest",
                "resources": {
                    "requests": { "cpu": "250m", "memory": "256Mi" },
                    "limits": { "cpu": "500m", "memory": "512Mi" }
                }
            }]
        },
        "status": {
            "phase": "Running",
            "startTime": "2024-01-02T03:04:05Z"
        }
    }"#
    .replace("MINOR", &minor.to_string())
}

const REPLICA_SET: &str = r#"{
    "apiVersion": "apps/v1",
    "kind": "ReplicaSet",
    "metadata": {
        "name": "api-66c8b4d9f7",
        "namespace": "default",
        "ownerReferences": [{
            "apiVersion": "apps/v1",
            "kind": "Deployment",
            "name": "api",
            "uid": "22222222-2222-2222-2222-222222222222",
            "controller": true
        }]
    },
    "spec": { "replicas": 3 }
}"#;

#[test]
fn pod_owner_reference_and_start_time_parse_across_versions() {
    for minor in SUPPORTED_MINORS {
        let p: api::core::v1::Pod = serde_json::from_str(&pod_fixture(minor))
            .unwrap_or_else(|e| panic!("1.{minor} pod failed to deserialize: {e}"));
        let p = pod(p);

        // The collector resolves the owner by taking the first owner reference.
        let owner = p
            .owners
            .first()
            .unwrap_or_else(|| panic!("1.{minor}: missing ownerReferences"));
        assert_eq!(owner.kind, "ReplicaSet");
        assert_eq!(owner.name, "api-66c8b4d9f7");

        // Namespace activity is driven by the start time.
        let start = p
            .status
            .as_ref()
            .and_then(|s| s.start_time.as_ref())
            .unwrap_or_else(|| panic!("1.{minor}: missing status.startTime"));
        assert_eq!(rfc3339(start), "2024-01-02T03:04:05+00:00");

        let mut degraded = Degradations::default();
        let listings = vec![PodListing {
            namespace: "default".to_string(),
            replica_sets: Some(vec![]),
            budgets: Some(vec![]),
            pods: Some(vec![p]),
        }];
        let (_, activity, _) =
            build_pod_owner_map(&listings, &at("2024-01-12T03:04:05Z"), &mut degraded);
        assert_eq!(activity.get(&"default".to_string()), Some(&10));
    }
}

#[test]
fn replicaset_resolves_to_deployment_owner_across_versions() {
    for minor in SUPPORTED_MINORS {
        let rs: ReplicaSet = serde_json::from_str(REPLICA_SET)
            .unwrap_or_else(|e| panic!("1.{minor} replicaset failed: {e}"));
        let rs = replica_set(rs);

        let dep_name = rs
            .owners
            .iter()
            .find(|o| o.kind == "Deployment")
            .map(|o| o.name.clone());
        assert_eq!(dep_name.as_deref(), Some("api"));
    }
}

#[test]
fn deployment_replicas_and_resources_parse_across_versions() {
    for minor in SUPPORTED_MINORS {
        let text = r#"{
            "apiVersion": "apps/v1",
            "kind": "Deployment",
            "metadata": {
                "name": "api",
                "namespace": "default",
                "creationTimestamp": "2023-12-15T10:00:00Z",
                "annotations": { "deployment.kubernetes.io/revision": "4" }
            },
            "spec": {
                "replicas": 3,
                "selector": { "matchLabels": { "app": "api" } },
                "template": {
                    "metadata": { "labels": { "app": "api" } },
                    "spec": {
                        "containers": [{
                            "name": "main",
                            "image": "ghcr.io/acme/api:1.MINOR",
                            "resources": {
                                "requests": { "cpu": "500m", "memory": "1Gi" },
                                "limits": { "cpu": "1", "memory": "2Gi" }
                            }
                        }]
                    }
                }
            }
        }"#
        .replace("MINOR", &minor.to_string());
        let dep: Deployment = serde_json::from_str(&text)
            .unwrap_or_else(|e| panic!("1.{minor} deployment failed: {e}"));

        assert!(dep.metadata.creation_timestamp.is_some());
        let created = dep.metadata.creation_timestamp.as_ref().map(timestamp);
        let spec = dep.spec.expect("deployment spec");
        assert_eq!(spec.replicas, Some(3));

        let containers = containers(spec.template.spec);
        let res = containers[0]
            .resources
            .as_ref()
            .expect("container resources");
        let requests = res.requests.as_ref().expect("requests");
        assert_eq!(
            requests.get(&"cpu".to_string()).map(String::as_str),
            Some("500m")
        );
        assert_eq!(
            requests.get(&"memory".to_string()).map(String::as_str),
            Some("1Gi")
        );
        let limits = res.limits.as_ref().expect("limits");
        assert_eq!(limits.get(&"cpu".to_string()).map(String::as_str), Some("1"));
        assert_eq!(
            limits.get(&"memory".to_string()).map(String::as_str),
            Some("2Gi")
        );

        let mut l = listing("default");
        l.deployments = Some(vec![Workload {
            name: dep.metadata.name,
            created,
            replicas: spec.replicas,
            containers,
        }]);
        let rows = rows(&l, 7, &at("2023-12-25T09:59:59Z"));
        assert_eq!(rows.len(), 1);
        assert_eq!(rows[0].workload_type, "Deployment");
        assert_eq!(rows[0].replicas, 3);
        assert_eq!(rows[0].cpu_request_m, 500);
        assert_eq!(rows[0].memory_request_mi, 1024);
        assert_eq!(rows[0].cpu_limit_m, 1000);
        assert_eq!(rows[0].memory_limit_mi, 2048);
        assert_eq!(rows[0].observation_days, 9);
    }
}

#[test]
fn statefulset_replicas_and_resources_parse_across_versions() {
    for minor in SUPPORTED_MINORS {
        let text = r#"{
            "apiVersion": "apps/v1",
            "kind": "StatefulSet",
            "metadata": { "name": "pg", "namespace": "db", "creationTimestamp": "2024-02-01T00:00:00Z" },
            "spec": {
                "replicas": 2,
                "serviceName": "pg",
                "selector": { "matchLabels": { "app": "pg" } },
                "template": {
                    "metadata": { "labels": { "app": "pg" } },
                    "spec": { "containers": [{
                        "name": "postgres",
                        "image": "postgres:16",
                        "resources": { "requests": { "cpu": "1", "memory": "2Gi" } }
                    }]}
                }
            }
        }"#;
        let sts: StatefulSet = serde_json::from_str(text)
            .unwrap_or_else(|e| panic!("1.{minor} statefulset failed: {e}"));
        let spec = sts.spec.expect("statefulset spec");
        assert_eq!(spec.replicas, Some(2));
        let containers = containers(spec.template.spec);
        let req = containers[0]
            .resources
            .as_ref()
            .and_then(|r| r.requests.as_ref())
            .expect("requests");
        assert_eq!(req.get(&"cpu".to_string()).map(String::as_str), Some("1"));

        let mut l = listing("db");
        l.stateful_sets = Some(vec![Workload {
            name: sts.metadata.name,
            created: sts.metadata.creation_timestamp.as_ref().map(timestamp),
            replicas: spec.replicas,
            containers,
        }]);
        let rows = rows(&l, 7, &at("2024-02-03T00:00:00Z"));
        assert_eq!(rows[0].workload_type, "StatefulSet");
        assert_eq!(rows[0].workload_name, "pg");
        assert_eq!(rows[0].replicas, 2);
        assert_eq!(rows[0].cpu_request_m, 1000);
        assert_eq!(rows[0].memory_limit_mi, 0);
    }
}

#[test]
fn daemonset_resources_parse_across_versions() {
    for minor in SUPPORTED_MINORS {
        let text = r#"{
            "apiVersion": "apps/v1",
            "kind": "DaemonSet",
            "metadata": { "name": "node-exporter", "namespace": "monitoring", "creationTimestamp": "2024-03-01T00:00:00Z" },
            "spec": {
                "selector": { "matchLabels": { "app": "node-exporter" } },
                "template": {
                    "metadata": { "labels": { "app": "node-exporter" } },
                    "spec": { "containers": [{
                        "name": "node-exporter",
                        "image": "prom/node-exporter:v1.8.0",
                        "resources": { "requests": { "cpu": "100m", "memory": "64Mi" } }
                    }]}
                }
            }
        }"#;
        let ds: DaemonSet = serde_json::from_str(text)
            .unwrap_or_else(|e| panic!("1.{minor} daemonset failed: {e}"));
        let containers = containers(ds.spec.expect("daemonset spec").template.spec);
        let req = containers[0]
            .resources
            .as_ref()
            .and_then(|r| r.requests.as_ref())
            .expect("requests");
        assert_eq!(req.get(&"cpu".to_string()).map(String::as_str), Some("100m"));
        assert_eq!(
            req.get(&"memory".to_string()).map(String::as_str),
            Some("64Mi")
        );

        let mut l = listing("monitoring");
        l.daemon_sets = Some(vec![Workload {
            name: ds.metadata.name,
            created: ds.metadata.creation_timestamp.as_ref().map(timestamp),
            replicas: None,
            containers,
        }]);
        // The replica count comes from the node count.
        let rows = rows(&l, 7, &at("2024-03-03T00:00:00Z"));
        assert_eq!(rows[0].workload_type, "DaemonSet");
        assert_eq!(rows[0].replicas, 7);
        assert_eq!(rows[0].cpu_request_m, 100);
        assert_eq!(rows[0].memory_request_mi, 64);
    }
}

#[test]
fn node_cloud_provider_labels_parse_across_providers() {
    let cases = [
        ("AWS", "eks.amazonaws.com/nodegroup", "ng-1"),
        ("GCP", "cloud.google.com/gke-nodepool", "default-pool"),
        ("Azure", "kubernetes.azure.com/agentpool", "nodepool1"),
    ];

    for (provider, label_key, label_val) in cases {
        let text = r#"{
            "apiVersion": "v1",
            "kind": "Node",
            "metadata": {
                "name": "node-1",
                "labels": {
                    "kubernetes.io/os": "linux",
                    "node.kubernetes.io/instance-type": "m5.large",
                    "KEY": "VALUE"
                }
            },
            "status": { "nodeInfo": { "kubeletVersion": "v1.29.0" } }
        }"#
        .replace("KEY", label_key)
        .replace("VALUE", label_val);

        let node: api::core::v1::Node =
            serde_json::from_str(&text).unwrap_or_else(|e| panic!("{provider} node failed: {e}"));
        let node_labels = labels(node.metadata.labels.expect("node labels"));
        assert_eq!(
            node_labels.get(&label_key.to_string()).map(String::as_str),
            Some(label_val),
            "{provider}: signature label missing"
        );

        let nodes = vec![collector::Node {
            labels: Some(node_labels),
            provider_id: node.spec.and_then(|s| s.provider_id),
            status: None,
        }];
        assert_eq!(
            choose_cloud_provider(&None, &String::new(), &nodes),
            provider
        );
    }
}

#[test]
fn namespace_parses_across_versions() {
    for minor in SUPPORTED_MINORS {
        let text = r#"{
            "apiVersion": "v1",
            "kind": "Namespace",
            "metadata": { "name": "team-a", "labels": { "kubernetes.io/metadata.name": "team-a" } },
            "status": { "phase": "Active" }
        }"#;
        let ns: api::core::v1::Namespace = serde_json::from_str(text)
            .unwrap_or_else(|e| panic!("1.{minor} namespace failed: {e}"));
        assert_eq!(ns.metadata.name.as_deref(), Some("team-a"));

        let config = Config {
            api_endpoint: "https://app.kubesavings.io".to_string(),
            api_key: "key".to_string(),
            cluster_id: "0".to_string(),
            include_namespaces: vec![],
            exclude_namespaces: vec!["kube-system".to_string()],
            cloud_provider: None,
        };
        assert_eq!(
            target_namespaces(&config, &vec![ns.metadata.name]),
            vec!["team-a"]
        );
    }
}

#[test]
fn event_last_timestamp_parses_across_versions() {
    for minor in SUPPORTED_MINORS {
        // core/v1 Event (what the collector lists), not events.k8s.io/v1.
        let text = r#"{
            "apiVersion": "v1",
            "kind": "Event",
            "metadata": { "name": "api.17abc", "namespace": "default" },
            "involvedObject": { "kind": "Pod", "name": "api-x", "namespace": "default" },
            "reason": "Scheduled",
            "type": "Normal",
            "count": 1,
            "firstTimestamp": "2024-05-01T12:00:00Z",
            "lastTimestamp": "2024-05-01T12:05:00Z"
        }"#;
        let event: api::core::v1::Event =
            serde_json::from_str(text).unwrap_or_else(|e| panic!("1.{minor} event failed: {e}"));
        let ts = timestamp(&event.last_timestamp.expect("lastTimestamp"));
        assert_eq!(rfc3339(&ts), "2024-05-01T12:05:00+00:00");
        assert_eq!(
            last_event_days(&Some(vec![Some(ts)]), &at("2024-05-03T12:05:00Z")),
            2
        );
    }
}

#[test]
fn pod_to_deployment_owner_chain_resolves() {
    let minor = 29;
    let p: api::core::v1::Pod = serde_json::from_str(&pod_fixture(minor)).expect("pod");
    let rs: ReplicaSet = serde_json::from_str(
        r#"{
            "metadata": {
                "name": "api-66c8b4d9f7",
                "namespace": "default",
                "ownerReferences": [{ "apiVersion": "apps/v1", "kind": "Deployment", "name": "api", "uid": "d" }]
            },
            "spec": { "replicas": 3 }
        }"#,
    )
    .expect("replicaset");
    let p = pod(p);
    let rs = replica_set(rs);

    // The pod's first owner is the ReplicaSet…
    let pod_owner = p.owners[0].name.clone();
    assert_eq!(pod_owner, "api-66c8b4d9f7");
    assert_eq!(rs.name.as_deref(), Some(pod_owner.as_str()));

    // …and the ReplicaSet's Deployment owner is the terminal workload.
    let dep_name = rs.owners[0].name.clone();
    assert_eq!(dep_name, "api");

    let mut degraded = Degradations::default();
    let listings = vec![PodListing {
        namespace: "default".to_string(),
        replica_sets: Some(vec![rs]),
        budgets: Some(vec![]),
        pods: Some(vec![p]),
    }];
    let (owners, _, _) = build_pod_owner_map(&listings, &at("2024-01-12T00:00:00Z"), &mut degraded);
    let owner = owners
        .get(&("default".to_string(), "api-66c8b4d9f7-x2lqz".to_string()))
        .expect("owner");
    assert_eq!(owner.workload_type, "Deployment");
    assert_eq!(owner.workload_name, "api");
}
