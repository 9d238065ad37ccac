use kubesavings_agent::collector::{
    add_namespace, aggregate_workload_usage, assemble, build_pod_owner_map,
    build_workload_metrics, choose_cloud_provider, collect, cronjob_failures, last_event_days,
    lists_jobs, lists_namespaces, target_namespaces, AgentSnapshot, ClusterListing, Container,
    ContainerMetric, ContainerStatus, CronJob, Degradations, EventListing, HealthMap, HorizontalPodAutoscaler,
    HpaSpec, IntOrString, Job, Json, Labels, Node, OwnerMap, OwnerReference, Pod,
    PodDisruptionBudget, PodListing, PodMetrics, PodOwner, PodStatus, ReplicaSet,
    ResourceRequirements, Table, Timestamp, UsageMap, UsageSample, Workload, WorkloadListing,
    WorkloadUsage,
};
use kubesavings_agent::config::Config;

const SECOND: i128 = 1_000_000_000;
const DAY: i128 = 86_400 * SECOND;
const NOON: i128 = 1_714_564_800 * SECOND; // 2024-05-01T12:00:00Z

fn at(nanosecond: i128) -> Timestamp {
    Timestamp::from_nanosecond(nanosecond).expect("in range")
}

fn days_ago(days: i128) -> Option<Timestamp> {
    Some(at(NOON - days * DAY))
}

fn text(s: &str) -> String {
    s.to_string()
}

fn labels(pairs: &[(&str, &str)]) -> Labels {
    let mut out = Labels::new();
    for (k, v) in pairs {
        out.insert(text(k), text(v));
    }
    out
}

fn owner(kind: &str, name: &str) -> OwnerReference {
    OwnerReference {
        kind: text(kind),
        name: text(name),
    }
}

fn container(name: &str, cpu: &str, memory: &str) -> Container {
    Container {
        name: text(name),
        resources: Some(ResourceRequirements {
            requests: Some(labels(&[("cpu", cpu), ("memory", memory)])),
            limits: None,
        }),
    }
}

fn workload(name: &str, replicas: Option<i32>, containers: Vec<Container>) -> Workload {
    Workload {
        name: Some(text(name)),
        created: days_ago(30),
        replicas,
        containers,
    }
}

fn empty_workloads(namespace: &str) -> WorkloadListing {
    WorkloadListing {
        namespace: text(namespace),
        hpas: Some(vec![]),
        scaled_objects: Some(vec![]),
        deployments: Some(vec![]),
        stateful_sets: Some(vec![]),
        daemon_sets: Some(vec![]),
        cron_jobs: Some(vec![]),
        jobs: None,
    }
}

fn failed_workloads(namespace: &str) -> WorkloadListing {
    WorkloadListing {
        namespace: text(namespace),
        hpas: None,
        scaled_objects: None,
        deployments: None,
        stateful_sets: None,
        daemon_sets: None,
        cron_jobs: None,
        jobs: None,
    }
}

fn pods(namespace: &str, items: Vec<Pod>) -> PodListing {
    PodListing {
        namespace: text(namespace),
        replica_sets: Some(vec![]),
        budgets: Some(vec![]),
        pods: Some(items),
    }
}

fn pod(name: &str, owners: Vec<OwnerReference>) -> Pod {
    Pod {
        name: Some(text(name)),
        labels: None,
        owners,
        status: None,
    }
}

fn status(start_time: Option<Timestamp>, restarts: &[i32], qos: Option<&str>) -> Option<PodStatus> {
    Some(PodStatus {
        start_time,
        container_statuses: restarts
            .iter()
            .map(|n| ContainerStatus {
                restart_count: *n,
                last_termination_reason: if *n > 2 { Some(text("OOMKilled")) } else { None },
            })
            .collect(),
        qos_class: qos.map(text),
    })
}

fn node(pairs: &[(&str, &str)], provider_id: Option<&str>) -> Node {
    Node {
        labels: Some(labels(pairs)),
        provider_id: provider_id.map(text),
        status: None,
    }
}

fn cluster() -> ClusterListing {
    ClusterListing {
        version: None,
        nodes: vec![],
        pod_metrics: Some(Json::Null),
        pods: vec![],
        workloads: vec![],
        events: vec![],
    }
}

fn snapshot_of(c: &ClusterListing) -> AgentSnapshot {
    assemble(c, &None, &at(NOON), text("2024-05-01T12:00:00+00:00"), 12, "1.2.0")
}

fn pair(a: &str, b: &str) -> (String, String) {
    (text(a), text(b))
}

fn triple(a: &str, b: &str, c: &str) -> (String, String, String) {
    (text(a), text(b), text(c))
}

// ── Pods and their owners ──────────────────────────────────────────────────

#[test]
fn owners_are_traced_to_the_workload() {
    let mut l = pods(
        "ns",
        vec![
            pod("a", vec![owner("ReplicaSet", "rs1"), owner("StatefulSet", "x")]),
            pod("b", vec![owner("ReplicaSet", "rs2")]),
            pod("c", vec![owner("StatefulSet", "db")]),
            pod("d", vec![owner("DaemonSet", "agent")]),
            pod("e", vec![owner("Job", "once")]),
            pod("f", vec![]),
            Pod {
                name: None,
                labels: None,
                owners: vec![owner("DaemonSet", "nameless")],
                status: status(days_ago(0), &[], None),
            },
        ],
    );
    l.replica_sets = Some(vec![
        ReplicaSet {
            name: Some(text("rs1")),
            owners: vec![owner("Other", "o"), owner("Deployment", "web"), owner("Deployment", "late")],
        },
        ReplicaSet {
            name: Some(text("rs2")),
            owners: vec![],
        },
        ReplicaSet {
            name: None,
            owners: vec![owner("Deployment", "web")],
        },
    ]);
    let mut degraded = Degradations::default();
    let (owners, activity, health) = build_pod_owner_map(&vec![l], &at(NOON), &mut degraded);
    assert!(degraded.into_vec().is_empty());
    let of = |p: &str| {
        owners
            .get(&pair("ns", p))
            .map(|o| (o.workload_type.as_str(), o.workload_name.as_str()))
    };
    assert_eq!(of("a"), Some(("Deployment", "web")));
    assert_eq!(of("b"), Some(("ReplicaSet", "rs2")));
    assert_eq!(of("c"), Some(("StatefulSet", "db")));
    assert_eq!(of("d"), Some(("DaemonSet", "agent")));
    assert_eq!(of("e"), None);
    assert_eq!(of("f"), None);
    assert_eq!(owners.len(), 4);
    assert_eq!(health.len(), 4);
    // A pod without a name counts neither for activity nor for health.
    assert_eq!(activity.get(&text("ns")), Some(&u32::MAX));
}

#[test]
fn health_is_gathered_over_the_pods_of_a_workload() {
    let db = || vec![owner("StatefulSet", "db")];
    let mut first = pod("db-0", db());
    first.status = status(days_ago(9), &[2, -7], None);
    let mut second = pod("db-1", db());
    second.status = status(days_ago(4), &[3, 5], Some("Burstable"));
    second.labels = Some(labels(&[("app", "db")]));
    let mut third = pod("db-2", db());
    third.status = status(None, &[], Some("Guaranteed"));
    third.labels = Some(labels(&[("app", "db"), ("tier", "x")]));
    let mut l = pods("ns", vec![first, second, third]);
    l.budgets = Some(vec![
        PodDisruptionBudget {
            match_labels: Some(labels(&[("app", "db")])),
            min_available: Some(IntOrString::Int(1)),
        },
        PodDisruptionBudget {
            match_labels: Some(labels(&[("tier", "x")])),
            min_available: Some(IntOrString::Int(2)),
        },
        PodDisruptionBudget {
            match_labels: Some(labels(&[("tier", "y")])),
            min_available: Some(IntOrString::Int(9)),
        },
    ]);
    let mut degraded = Degradations::default();
    let (_, activity, health) = build_pod_owner_map(&vec![l], &at(NOON), &mut degraded);
    let h = health.get(&triple("ns", "StatefulSet", "db")).expect("health");
    assert_eq!(h.restart_count, 10);
    assert_eq!(h.oom_killed_count, 2);
    assert_eq!(h.qos_class, "Burstable");
    assert!(h.has_pdb);
    assert_eq!(h.pdb_min_available, 2);
    assert_eq!(activity.get(&text("ns")), Some(&4));
}

#[test]
fn failed_pod_calls_are_recorded_and_read_as_absent() {
    let listings = vec![
        PodListing {
            namespace: text("a"),
            replica_sets: None,
            budgets: None,
            pods: Some(vec![pod("p", vec![owner("ReplicaSet", "rs")])]),
        },
        PodListing {
            namespace: text("b"),
            replica_sets: Some(vec![]),
            budgets: Some(vec![]),
            pods: None,
        },
    ];
    let mut degraded = Degradations::default();
    let (owners, activity, _) = build_pod_owner_map(&listings, &at(NOON), &mut degraded);
    assert_eq!(
        degraded.into_vec(),
        vec!["poddisruptionbudgets", "pods", "replicasets"]
    );
    let o = owners.get(&pair("a", "p")).expect("owner");
    assert_eq!((o.workload_type.as_str(), o.workload_name.as_str()), ("ReplicaSet", "rs"));
    assert!(activity.get(&text("a")).is_some());
    assert!(activity.get(&text("b")).is_none());
}

// ── Workload rows ──────────────────────────────────────────────────────────

#[test]
fn a_row_takes_its_figures_from_the_resources() {
    let res = Some(ResourceRequirements {
        requests: Some(labels(&[("cpu", "1500m"), ("memory", "1.5Gi")])),
        limits: Some(labels(&[("cpu", "2"), ("memory", "2G")])),
    });
    let usage = WorkloadUsage {
        samples: vec![UsageSample {
            cpu: Some(text("5m")),
            memory: None,
        }],
    };
    let row = build_workload_metrics("ns", "Deployment", "api", "main", 4, 17, &res, Some(&usage));
    assert_eq!(row.namespace, "ns");
    assert_eq!(row.workload_type, "Deployment");
    assert_eq!(row.workload_name, "api");
    assert_eq!(row.container_name, "main");
    assert_eq!((row.replicas, row.observation_days), (4, 17));
    assert_eq!((row.cpu_request_m, row.memory_request_mi), (1500, 1536));
    assert_eq!((row.cpu_limit_m, row.memory_limit_mi), (2000, 1907));
    assert_eq!(row.usage.len(), 1);
    assert_eq!(row.usage[0].cpu.as_deref(), Some("5m"));
    assert!(row.usage[0].memory.is_none());
    assert!(!row.has_hpa && !row.keda_scaled && !row.has_pdb);
    assert!(row.is_billed());

    let bare = build_workload_metrics("ns", "CronJob", "job", "main", 1, 0, &None, None);
    assert_eq!((bare.cpu_request_m, bare.memory_request_mi), (0, 0));
    assert_eq!((bare.cpu_limit_m, bare.memory_limit_mi), (0, 0));
    assert!(bare.usage.is_empty());
    assert!(!bare.is_billed());
}

#[test]
fn failed_runs_are_counted_by_owning_cron_job() {
    let job = |failed: Option<i32>, owners: Vec<OwnerReference>| Job { failed, owners };
    let counts = cronjob_failures(&vec![
        job(Some(3), vec![owner("CronJob", "nightly")]),
        job(Some(1), vec![owner("CronJob", "nightly"), owner("Job", "nightly")]),
        job(Some(0), vec![owner("CronJob", "nightly")]),
        job(Some(-1), vec![owner("CronJob", "nightly")]),
        job(None, vec![owner("CronJob", "nightly")]),
        job(Some(1), vec![owner("CronJob", "hourly")]),
        job(Some(1), vec![]),
        job(Some(0), vec![owner("CronJob", "quiet")]),
        job(Some(2), vec![owner("Job", "other")]),
    ]);
    // A name without a failed run is no key.
    assert_eq!(counts.get(&text("quiet")), None);
    assert_eq!(counts.get(&text("other")), None);
    assert_eq!(counts.get(&text("nightly")), Some(&2));
    assert_eq!(counts.get(&text("hourly")), Some(&1));
    assert_eq!(counts.len(), 2);
}

#[test]
fn cron_jobs_make_rows_that_no_namespace_is_billed_for() {
    let mut l = empty_workloads("ns");
    l.deployments = Some(vec![
        workload("api", Some(3), vec![container("main", "1", "1Gi"), container("side", "10m", "1Mi")]),
        workload("web", None, vec![container("main", "2", "2Gi")]),
    ]);
    l.stateful_sets = Some(vec![workload("db", Some(-1), vec![container("pg", "1", "1Gi")])]);
    l.daemon_sets = Some(vec![workload("agent", Some(50), vec![container("main", "1m", "1Mi")])]);
    l.cron_jobs = Some(vec![CronJob {
        name: Some(text("nightly")),
        created: days_ago(2),
        suspend: Some(true),
        last_schedule: Some(at(NOON + 123_456_789)),
        containers: vec![container("run", "4", "8Gi")],
    }]);
    l.jobs = Some(vec![Job {
        failed: Some(2),
        owners: vec![owner("CronJob", "nightly")],
    }]);
    l.hpas = Some(vec![HorizontalPodAutoscaler {
        spec: Some(HpaSpec {
            target_kind: text("Deployment"),
            target_name: text("api"),
            min_replicas: Some(2),
            max_replicas: 8,
            metrics: vec![],
        }),
        current_replicas: Some(3),
    }]);
    let mut rows = vec![build_workload_metrics("x", "Deployment", "y", "z", 1, 1, &None, None)];
    let mut degraded = Degradations::default();
    let totals = add_namespace(
        &mut rows,
        &l,
        6,
        &at(NOON),
        &HealthMap::new(),
        &UsageMap::new(),
        &mut degraded,
    );
    assert!(degraded.into_vec().is_empty());
    assert_eq!(totals.workload_count, 5);
    assert_eq!((totals.billed_from, totals.billed_to), (1, 6));
    let seen: Vec<(&str, &str, &str, u32)> = rows[1..]
        .iter()
        .map(|r| {
            (
                r.workload_type.as_str(),
                r.workload_name.as_str(),
                r.container_name.as_str(),
                r.replicas,
            )
        })
        .collect();
    assert_eq!(
        seen,
        vec![
            ("Deployment", "api", "main", 3),
            ("Deployment", "api", "side", 3),
            ("Deployment", "web", "main", 1),
            ("StatefulSet", "db", "pg", u32::MAX),
            ("DaemonSet", "agent", "main", 6),
            ("CronJob", "nightly", "run", 1),
        ]
    );
    assert!(rows[1].has_hpa && rows[2].has_hpa && !rows[3].has_hpa);
    assert_eq!(rows[1].hpa_max_replicas, 8);
    assert_eq!(rows[1].observation_days, 30);
    assert!(!rows[6].is_billed());
    assert!(rows[6].cronjob_suspended);
    assert_eq!(rows[6].cronjob_last_schedule_ts, "2024-05-01T12:00:00Z");
    assert_eq!(rows[6].cronjob_recent_failures, 1);
    assert_eq!(rows[6].observation_days, 2);
    assert_eq!(rows[6].cpu_request_m, 4000);
}

#[test]
fn jobs_matter_only_where_there_are_cron_jobs() {
    let run = |cron_jobs: Option<Vec<CronJob>>| {
        let mut l = empty_workloads("ns");
        l.cron_jobs = cron_jobs;
        let mut rows = Vec::new();
        let mut degraded = Degradations::default();
        let totals = add_namespace(
            &mut rows,
            &l,
            1,
            &at(NOON),
            &HealthMap::new(),
            &UsageMap::new(),
            &mut degraded,
        );
        (rows, totals.workload_count, degraded.into_vec())
    };
    let (_, count, failures) = run(Some(vec![]));
    assert_eq!(count, 0);
    assert!(failures.is_empty());
    let (_, count, failures) = run(None);
    assert_eq!(count, 0);
    assert_eq!(failures, vec!["cronjobs"]);
    let (rows, count, failures) = run(Some(vec![CronJob {
        name: None,
        created: None,
        suspend: None,
        last_schedule: None,
        containers: vec![container("run", "1", "1Gi")],
    }]));
    assert_eq!(count, 1);
    assert_eq!(failures, vec!["jobs"]);
    assert_eq!(rows[0].workload_name, "");
    assert!(!rows[0].cronjob_suspended);
    assert_eq!(rows[0].cronjob_last_schedule_ts, "");
    assert_eq!(rows[0].cronjob_recent_failures, 0);
    assert_eq!(rows[0].observation_days, 0);
}

// ── Activity ───────────────────────────────────────────────────────────────

#[test]
fn the_latest_event_counts() {
    let now = at(NOON);
    assert_eq!(
        last_event_days(&Some(vec![days_ago(7), None, days_ago(3), days_ago(5)]), &now),
        3
    );
    assert_eq!(last_event_days(&Some(vec![days_ago(-4)]), &now), 0);
    assert_eq!(last_event_days(&Some(vec![None]), &now), u32::MAX);
    assert_eq!(last_event_days(&Some(vec![]), &now), u32::MAX);
    assert_eq!(last_event_days(&None, &now), u32::MAX);
}

#[test]
fn activity_is_the_latest_of_pods_and_events() {
    let activity = |pod_days: Option<i128>, event_days: Option<i128>| {
        let mut c = cluster();
        let mut p = pod("p", vec![]);
        p.status = status(pod_days.and_then(days_ago), &[], None);
        c.pods = vec![pods("ns", vec![p])];
        c.workloads = vec![empty_workloads("ns")];
        c.events = vec![EventListing {
            namespace: text("ns"),
            events: Some(vec![event_days.and_then(days_ago)]),
        }];
        snapshot_of(&c).namespaces[0].days_since_last_activity
    };
    assert_eq!(activity(Some(8), Some(3)), 3);
    assert_eq!(activity(Some(2), Some(3)), 2);
    assert_eq!(activity(Some(8), None), 8);
    assert_eq!(activity(None, Some(9)), 9);
    // Unknown activity is not idleness.
    assert_eq!(activity(None, None), 0);
}

// ── Choices from the configuration ─────────────────────────────────────────

#[test]
fn the_provider_is_configured_read_from_ids_or_guessed() {
    let eks = vec![node(&[("alpha.eksctl.io/cluster-name", "c")], None)];
    let gke = vec![node(&[("cloud.google.com/gke-nodepool", "p")], None)];
    let plain = vec![
        node(&[("kubernetes.io/os", "linux")], None),
        node(&[("eks.amazonaws.com/nodegroup", "g")], None),
    ];
    let choose = |configured: Option<&str>, from_nodes: &str, nodes: &Vec<Node>| {
        choose_cloud_provider(&configured.map(text), &text(from_nodes), nodes)
    };
    assert_eq!(choose(Some("mine"), "gcp", &eks), "mine");
    assert_eq!(choose(None, "gcp", &eks), "gcp");
    assert_eq!(choose(None, "", &eks), "AWS");
    assert_eq!(choose(None, "", &gke), "GCP");
    // Only the first node is asked.
    assert_eq!(choose(None, "", &plain), "");
    assert_eq!(choose(None, "", &vec![]), "");
    let unlabelled = vec![Node {
        labels: None,
        provider_id: None,
        status: None,
    }];
    assert_eq!(choose(None, "", &unlabelled), "");
}

fn config(wanted: &[&str], unwanted: &[&str]) -> Config {
    Config {
        api_endpoint: text("https://app.kubesavings.io"),
        api_key: text("key"),
        cluster_id: text("0"),
        include_namespaces: wanted.iter().map(|s| text(s)).collect(),
        exclude_namespaces: unwanted.iter().map(|s| text(s)).collect(),
        cloud_provider: None,
    }
}

#[test]
fn included_namespaces_come_before_all_others() {
    let names = vec![Some(text("a")), None, Some(text("kube-system")), Some(text("b"))];
    assert_eq!(
        target_namespaces(&config(&[], &["kube-system"]), &names),
        vec!["a", "b"]
    );
    assert_eq!(
        target_namespaces(&config(&[], &[]), &names),
        vec!["a", "kube-system", "b"]
    );
    assert_eq!(
        target_namespaces(&config(&["x", "b"], &["x"]), &names),
        vec!["x", "b"]
    );
    assert_eq!(
        target_namespaces(&config(&["x"], &[]), &vec![]),
        vec!["x"]
    );
}

// ── Whole passes ───────────────────────────────────────────────────────────

#[test]
fn a_clean_pass_reports_no_failure() {
    let mut c = cluster();
    c.pods = vec![pods("a", vec![]), pods("b", vec![])];
    c.workloads = vec![empty_workloads("a"), empty_workloads("b")];
    c.events = vec![
        EventListing {
            namespace: text("a"),
            events: Some(vec![]),
        },
        EventListing {
            namespace: text("b"),
            events: Some(vec![]),
        },
    ];
    let s = snapshot_of(&c);
    assert!(s.partial_failures.is_empty());
    assert!(s.metrics_available);
    assert_eq!(s.namespaces.len(), 2);
    assert_eq!(s.k8s_version, "");
}

#[test]
fn every_failed_call_is_reported_once() {
    let mut c = cluster();
    c.pod_metrics = None;
    for ns in ["a", "b", "c"] {
        c.pods.push(PodListing {
            namespace: text(ns),
            replica_sets: None,
            budgets: None,
            pods: None,
        });
        c.workloads.push(failed_workloads(ns));
        c.events.push(EventListing {
            namespace: text(ns),
            events: None,
        });
    }
    let s = snapshot_of(&c);
    assert_eq!(
        s.partial_failures,
        vec![
            "cronjobs",
            "daemonsets",
            "deployments",
            "events",
            "horizontalpodautoscalers",
            "metrics-server",
            "poddisruptionbudgets",
            "pods",
            "replicasets",
            "statefulsets",
        ]
    );
    assert!(!s.metrics_available);
    assert!(s.workloads.is_empty());
    assert_eq!(s.namespaces.len(), 3);
    assert_eq!(s.namespaces[2].days_since_last_activity, 0);
}

fn busy_cluster() -> ClusterListing {
    let metrics = Json::Object(vec![(
        text("items"),
        Json::Array(vec![
            pod_metrics("shop", "web-1", "250m", "64Mi"),
            pod_metrics("shop", "web-2", "750m", "64Mi"),
            pod_metrics("shop", "stray", "9", "9Gi"),
        ]),
    )]);
    let mut web_1 = pod("web-1", vec![owner("ReplicaSet", "web-rs")]);
    web_1.status = status(days_ago(6), &[1], Some("Burstable"));
    let mut web_2 = pod("web-2", vec![owner("ReplicaSet", "web-rs")]);
    web_2.status = status(days_ago(5), &[4], Some("Burstable"));
    let mut shop_pods = pods("shop", vec![web_1, web_2]);
    shop_pods.replica_sets = Some(vec![ReplicaSet {
        name: Some(text("web-rs")),
        owners: vec![owner("Deployment", "web")],
    }]);
    let mut shop = empty_workloads("shop");
    shop.deployments = Some(vec![workload("web", Some(2), vec![container("main", "500m", "512Mi")])]);
    shop.cron_jobs = Some(vec![CronJob {
        name: Some(text("mail")),
        created: days_ago(1),
        suspend: None,
        last_schedule: None,
        containers: vec![container("run", "1", "1Gi")],
    }]);
    shop.jobs = Some(vec![]);
    let mut ops = empty_workloads("ops");
    ops.daemon_sets = Some(vec![workload("probe", None, vec![container("main", "100m", "50Mi")])]);
    ClusterListing {
        version: Some(Json::Object(vec![
            (text("major"), Json::Text(text("1"))),
            (text("minor"), Json::Text(text("29+"))),
        ])),
        nodes: vec![
            node(&[("topology.kubernetes.io/region", "eu-1")], Some("aws:///eu-1a/i-1")),
            node(&[("topology.kubernetes.io/region", "eu-1")], Some("aws:///eu-1a/i-2")),
        ],
        pod_metrics: Some(metrics),
        pods: vec![shop_pods, pods("ops", vec![])],
        workloads: vec![shop, ops],
        events: vec![
            EventListing {
                namespace: text("shop"),
                events: Some(vec![days_ago(9)]),
            },
            EventListing {
                namespace: text("ops"),
                events: None,
            },
        ],
    }
}

fn pod_metrics(namespace: &str, name: &str, cpu: &str, memory: &str) -> Json {
    Json::Object(vec![
        (
            text("metadata"),
            Json::Object(vec![
                (text("namespace"), Json::Text(text(namespace))),
                (text("name"), Json::Text(text(name))),
            ]),
        ),
        (
            text("containers"),
            Json::Array(vec![Json::Object(vec![
                (text("name"), Json::Text(text("main"))),
                (
                    text("usage"),
                    Json::Object(vec![
                        (text("cpu"), Json::Text(text(cpu))),
                        (text("memory"), Json::Text(text(memory))),
                    ]),
                ),
            ])]),
        ),
    ])
}

fn check_busy(s: &AgentSnapshot) {
    assert_eq!(s.k8s_version, "1.29+");
    assert_eq!(s.node_count, 2);
    assert_eq!(s.region, "eu-1");
    assert_eq!(s.node_pools.len(), 1);
    assert_eq!(s.node_pools[0].node_count, 2);
    assert_eq!(s.agent_version, "1.2.0");
    assert!(s.metrics_available);
    assert_eq!(s.partial_failures, vec!["events"]);

    assert_eq!(s.workloads.len(), 3);
    let web = &s.workloads[0];
    assert_eq!(web.workload_name, "web");
    let mut cpu: Vec<&str> = web.usage.iter().filter_map(|u| u.cpu.as_deref()).collect();
    cpu.sort();
    assert_eq!(cpu, vec!["250m", "750m"]);
    assert_eq!(web.restart_count, 5);
    assert_eq!(web.oom_killed_count, 1);
    assert_eq!(web.qos_class, "Burstable");
    assert_eq!(s.workloads[1].workload_type, "CronJob");
    assert_eq!(s.workloads[2].workload_name, "probe");
    assert_eq!(s.workloads[2].replicas, 2);

    let shop = &s.namespaces[0];
    assert_eq!((shop.name.as_str(), shop.workload_count), ("shop", 2));
    assert_eq!((shop.billed_from, shop.billed_to), (0, 1));
    let ops = &s.namespaces[1];
    assert_eq!((ops.name.as_str(), ops.workload_count), ("ops", 1));
    assert_eq!((ops.billed_from, ops.billed_to), (2, 3));
    for n in &s.namespaces {
        for (k, row) in s.workloads.iter().enumerate() {
            let billed = n.billed_from <= k && k < n.billed_to;
            assert_eq!(billed, row.namespace == n.name && row.is_billed());
        }
    }
}

#[test]
fn a_snapshot_puts_everything_together() {
    let c = busy_cluster();
    let s = snapshot_of(&c);
    check_busy(&s);
    assert_eq!(s.cloud_provider, "aws");
    assert_eq!(s.collected_at, "2024-05-01T12:00:00+00:00");
    assert_eq!(s.collection_duration_ms, 12);
    assert_eq!(s.workloads[0].observation_days, 30);
    assert_eq!(s.namespaces[0].days_since_last_activity, 5);
    assert_eq!(s.namespaces[1].days_since_last_activity, 0);
}

#[test]
fn a_pass_is_stamped_with_the_time_it_ended() {
    let c = busy_cluster();
    let mut configured = config(&[], &[]);
    configured.cloud_provider = Some(text("on-prem"));
    let before = chrono::Utc::now();
    let s = collect(&configured, &c, u128::from(u32::MAX) + 7, "1.2.0");
    let after = chrono::Utc::now();
    check_busy(&s);
    assert_eq!(s.cloud_provider, "on-prem");
    assert_eq!(s.collection_duration_ms, u32::MAX);
    assert!(s.collected_at.ends_with("+00:00"));
    let stamped = chrono::DateTime::parse_from_rfc3339(&s.collected_at).expect("RFC 3339");
    assert!(before <= stamped && stamped <= after);
    // The workload was created long before: its age is in days, by the same clock.
    let age = (stamped.timestamp_nanos_opt().expect("in range") as i128 - (NOON - 30 * DAY)) / DAY;
    assert_eq!(s.workloads[0].observation_days as i128, age);
}

#[test]
fn the_targets_are_reported_in_their_order_from_their_own_listings() {
    let configured = config(&["zeta", "alpha", "mid"], &[]);
    let targets = target_namespaces(&configured, &vec![]);
    let mut c = cluster();
    for (k, ns) in targets.iter().enumerate() {
        let days = k as i128 + 1;
        let mut p = pod("p", vec![]);
        p.status = status(days_ago(10 * days), &[], None);
        c.pods.push(pods(ns, vec![p]));
        let mut l = empty_workloads(ns);
        l.deployments = Some(
            (0..=k)
                .map(|n| workload(&format!("w{n}"), None, vec![container("main", "1", "1Gi")]))
                .collect(),
        );
        c.workloads.push(l);
        c.events.push(EventListing {
            namespace: ns.clone(),
            events: Some(vec![days_ago(20 - days)]),
        });
    }
    let s = snapshot_of(&c);
    let seen: Vec<(&str, u32, u32, usize, usize)> = s
        .namespaces
        .iter()
        .map(|n| {
            (
                n.name.as_str(),
                n.workload_count,
                n.days_since_last_activity,
                n.billed_from,
                n.billed_to,
            )
        })
        .collect();
    assert_eq!(
        seen,
        vec![
            ("zeta", 1, 10, 0, 1),
            ("alpha", 2, 18, 1, 3),
            ("mid", 3, 17, 3, 6),
        ]
    );
    let names: Vec<String> = collect(&configured, &c, 0, "1.2.0")
        .namespaces
        .into_iter()
        .map(|n| n.name)
        .collect();
    assert_eq!(names, targets);
}

#[test]
fn a_pass_lists_only_what_it_will_read() {
    assert!(lists_namespaces(&config(&[], &["x"])));
    assert!(!lists_namespaces(&config(&["x"], &[])));
    assert!(!lists_jobs(&None));
    assert!(!lists_jobs(&Some(vec![])));
    assert!(lists_jobs(&Some(vec![CronJob {
        name: None,
        created: None,
        suspend: None,
        last_schedule: None,
        containers: vec![],
    }])));
}

#[test]
fn a_namespace_listed_twice_has_the_totals_of_its_last_listing() {
    let mut c = cluster();
    let mut first = empty_workloads("ns");
    first.deployments = Some(vec![
        workload("a", None, vec![container("main", "1", "1Gi")]),
        workload("b", None, vec![container("main", "1", "1Gi")]),
    ]);
    let mut second = empty_workloads("ns");
    second.deployments = Some(vec![workload("a", None, vec![container("main", "1", "1Gi")])]);
    c.workloads = vec![first, second];
    c.events = vec![EventListing {
        namespace: text("ns"),
        events: Some(vec![]),
    }];
    let s = snapshot_of(&c);
    assert_eq!(s.workloads.len(), 3);
    assert_eq!(s.namespaces[0].workload_count, 1);
    assert_eq!((s.namespaces[0].billed_from, s.namespaces[0].billed_to), (2, 3));
}

// ── Tables ─────────────────────────────────────────────────────────────────

#[test]
fn a_table_keeps_one_value_per_key() {
    let mut t: Table<(String, String), u32> = Table::new();
    assert!(t.is_empty());
    t.insert(pair("a", "b"), 1);
    t.insert(pair("a", "c"), 2);
    t.insert(pair("a", "b"), 3);
    assert_eq!(t.len(), 2);
    assert_eq!(t.get(&pair("a", "b")), Some(&3));
    assert_eq!(t.get(&pair("b", "a")), None);
    assert_eq!(t.take(&pair("a", "b")), Some(3));
    assert_eq!(t.take(&pair("a", "b")), None);
    assert_eq!(t.len(), 1);
    assert_eq!(t.key_at(0), &pair("a", "c"));
    assert_eq!(t.value_at(0), &2);
}

#[test]
fn usage_follows_the_owner_of_each_pod() {
    let mut metrics = PodMetrics::new();
    let mut owners = OwnerMap::new();
    for (p, name) in [("p1", "api"), ("p2", "web"), ("p3", "api")] {
        metrics.insert(
            pair("ns", p),
            vec![ContainerMetric {
                name: text("main"),
                cpu: Some(text(p)),
                memory: None,
            }],
        );
        owners.insert(
            pair("ns", p),
            PodOwner {
                workload_type: text("Deployment"),
                workload_name: text(name),
            },
        );
    }
    let usage = aggregate_workload_usage(&metrics, &owners);
    let key = |name: &str| (text("ns"), text("Deployment"), text(name), text("main"));
    assert_eq!(usage.get(&key("api")).map(|u| u.pod_count()), Some(2));
    assert_eq!(usage.get(&key("web")).map(|u| u.pod_count()), Some(1));
    assert_eq!(usage.len(), 2);
}
