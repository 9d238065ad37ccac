use kubesavings_agent::collector::{
    aggregate_node_pools, aggregate_workload_usage, apply_autoscaler_context,
    apply_workload_health, autoscaler_map, budget_floors, capacity_type_from_labels, days_since,
    format_rfc3339, hpa_fields, keda_fields, node_meta, node_resources, parse_k8s_version,
    parse_pod_metrics_json, parse_provider_id, pdb_floor, to_u32, whole_days_between,
    AutoscalerContext, ContainerMetric, CpuUnit, Degradations, HorizontalPodAutoscaler, HpaSpec,
    IntOrString, Json, Labels, MemoryUnit, Node, NodeStatus, OwnerMap, PodDisruptionBudget,
    PodMetrics, PodOwner, ResourceMetric, Timestamp, WorkloadHealth, WorkloadMetrics,
    WorkloadUsage,
};
use kubesavings_agent::collector::{split_cpu_quantity, split_memory_quantity};

fn from_value(v: &serde_json::Value) -> Json {
    match v {
        serde_json::Value::Null => Json::Null,
        serde_json::Value::Bool(b) => Json::Bool(*b),
        serde_json::Value::Number(n) => match n.as_i64() {
            Some(i) => Json::Integer(i),
            None => Json::OtherNumber,
        },
        serde_json::Value::String(s) => Json::Text(s.clone()),
        serde_json::Value::Array(items) => Json::Array(items.iter().map(from_value).collect()),
        serde_json::Value::Object(map) => Json::Object(
            map.iter()
                .map(|(k, v)| (k.clone(), from_value(v)))
                .collect(),
        ),
    }
}

fn json(text: &str) -> Json {
    from_value(&serde_json::from_str(text).expect("fixture should be JSON"))
}

fn labels(pairs: &[(&str, &str)]) -> Labels {
    let mut out = Labels::new();
    for (k, v) in pairs {
        out.insert(k.to_string(), v.to_string());
    }
    out
}

fn cpu_m(quantity: &Option<String>) -> f64 {
    let (numeral, unit) = split_cpu_quantity(quantity.as_deref().unwrap_or("0"));
    let n: f64 = numeral.parse().unwrap_or(0.0);
    match unit {
        CpuUnit::Core => n * 1000.0,
        CpuUnit::Milli => n,
        CpuUnit::Micro => n / 1_000.0,
        CpuUnit::Nano => n / 1_000_000.0,
    }
}

fn mem_mi(quantity: &Option<String>) -> f64 {
    let (numeral, unit) = split_memory_quantity(quantity.as_deref().unwrap_or("0"));
    let n: f64 = numeral.parse().unwrap_or(0.0);
    match unit {
        MemoryUnit::Gibi => n * 1024.0,
        MemoryUnit::Mebi => n,
        MemoryUnit::Kibi => n / 1024.0,
        _ => panic!("no fixture uses this unit"),
    }
}

fn cpu_m_total(u: &WorkloadUsage) -> f64 {
    u.samples.iter().map(|s| cpu_m(&s.cpu)).sum()
}

fn mem_mi_total(u: &WorkloadUsage) -> f64 {
    u.samples.iter().map(|s| mem_mi(&s.memory)).sum()
}

// ── Autoscaler context ─────────────────────────────────────────────────────

fn resource(name: &str, average_utilization: Option<i32>) -> Option<ResourceMetric> {
    Some(ResourceMetric {
        name: name.to_string(),
        average_utilization,
    })
}

#[test]
fn hpa_fields_extracts_target_and_cpu_percentage() {
    let hpa = HorizontalPodAutoscaler {
        spec: Some(HpaSpec {
            target_kind: "Deployment".to_string(),
            target_name: "api".to_string(),
            min_replicas: Some(3),
            max_replicas: 10,
            // A non-CPU metric first, to pin that the CPU one is still found.
            metrics: vec![resource("memory", Some(90)), resource("cpu", Some(75))],
        }),
        current_replicas: Some(3),
    };

    let f = hpa_fields(&hpa).expect("HPA names a target");
    assert_eq!(f.kind, "Deployment");
    assert_eq!(f.name, "api");
    assert_eq!(f.min_replicas, 3);
    assert_eq!(f.max_replicas, 10);
    assert_eq!(f.target_cpu_pct, 75);
    assert_eq!(f.current_replicas, 3);
}

#[test]
fn hpa_without_cpu_metric_reports_zero_percent_not_a_wrong_one() {
    let hpa = HorizontalPodAutoscaler {
        spec: Some(HpaSpec {
            target_kind: "StatefulSet".to_string(),
            target_name: "queue".to_string(),
            min_replicas: None,
            max_replicas: 5,
            metrics: vec![None],
        }),
        current_replicas: None,
    };

    let f = hpa_fields(&hpa).expect("HPA names a target");
    assert_eq!(f.target_cpu_pct, 0);
    // minReplicas omitted — the wire schema's "not present" is 0, not 1.
    assert_eq!(f.min_replicas, 0);
    assert_eq!(f.kind, "StatefulSet");
}

#[test]
fn an_hpa_without_a_target_says_nothing() {
    assert!(hpa_fields(&HorizontalPodAutoscaler {
        spec: None,
        current_replicas: Some(1),
    })
    .is_none());
    assert!(hpa_fields(&HorizontalPodAutoscaler {
        spec: Some(HpaSpec {
            target_kind: "Deployment".to_string(),
            target_name: String::new(),
            min_replicas: None,
            max_replicas: 1,
            metrics: vec![],
        }),
        current_replicas: None,
    })
    .is_none());
}

#[test]
fn the_first_cpu_metric_counts_in_any_case() {
    let hpa = |metrics: Vec<Option<ResourceMetric>>| HorizontalPodAutoscaler {
        spec: Some(HpaSpec {
            target_kind: "Deployment".to_string(),
            target_name: "api".to_string(),
            min_replicas: Some(-4),
            max_replicas: -1,
            metrics,
        }),
        current_replicas: Some(-2),
    };
    let f = hpa_fields(&hpa(vec![
        None,
        resource("CPU", Some(60)),
        resource("cpu", Some(75)),
    ]))
    .expect("target named");
    assert_eq!(f.target_cpu_pct, 60);
    // Negative numbers, which the API never sends, count as zero.
    assert_eq!(f.min_replicas, 0);
    assert_eq!(f.max_replicas, 0);
    assert_eq!(f.current_replicas, 0);
    // The first CPU metric counts even where it gives no percentage.
    let f = hpa_fields(&hpa(vec![resource("cPu", None), resource("cpu", Some(75))]))
        .expect("target named");
    assert_eq!(f.target_cpu_pct, 0);
    let f = hpa_fields(&hpa(vec![resource("cpus", Some(1))])).expect("target named");
    assert_eq!(f.target_cpu_pct, 0);
}

#[test]
fn keda_fields_defaults_kind_to_deployment_and_joins_triggers() {
    let spec = json(
        r#"{
            "scaleTargetRef": { "name": "consumer" },
            "minReplicaCount": 2,
            "triggers": [ { "type": "kafka" }, { "type": "cron" } ]
        }"#,
    );

    let f = keda_fields(&spec).expect("ScaledObject names a target");
    assert_eq!(f.kind, "Deployment");
    assert_eq!(f.name, "consumer");
    assert_eq!(f.min_replicas, 2);
    assert_eq!(f.trigger_types, "kafka,cron");
}

#[test]
fn keda_fields_tolerates_a_spec_with_nothing_in_it() {
    assert!(keda_fields(&json("{}")).is_none());
    // Present target, everything else missing: floor 0, no triggers.
    let f = keda_fields(&json(r#"{ "scaleTargetRef": { "name": "w" } }"#)).expect("target named");
    assert_eq!(f.min_replicas, 0);
    assert_eq!(f.trigger_types, "");
}

#[test]
fn keda_fields_reads_odd_shapes_without_guessing() {
    let f = keda_fields(&json(
        r#"{
            "scaleTargetRef": { "kind": "StatefulSet", "name": "" },
            "minReplicaCount": -3,
            "triggers": [ { "type": "a" }, { "kind": "b" }, 7, { "type": 8 }, { "type": "c" } ]
        }"#,
    ))
    .expect("an empty name is a name");
    assert_eq!(f.kind, "StatefulSet");
    assert_eq!(f.name, "");
    assert_eq!(f.min_replicas, 0);
    assert_eq!(f.trigger_types, "a,c");

    assert!(keda_fields(&json(r#"{ "scaleTargetRef": { "name": 1 } }"#)).is_none());
    assert!(keda_fields(&json("[]")).is_none());
    let f = keda_fields(&json(
        r#"{ "scaleTargetRef": { "name": "w", "kind": 1 }, "minReplicaCount": 4294967298, "triggers": {} }"#,
    ))
    .expect("target named");
    assert_eq!(f.kind, "Deployment");
    assert_eq!(f.min_replicas, 2);
    assert_eq!(f.trigger_types, "");
    let f = keda_fields(&json(
        r#"{ "scaleTargetRef": { "name": "w" }, "minReplicaCount": 1.5 }"#,
    ))
    .expect("target named");
    assert_eq!(f.min_replicas, 0);
}

#[test]
fn hpas_and_scaled_objects_meet_in_one_context() {
    let hpa = |name: &str, max: i32| HorizontalPodAutoscaler {
        spec: Some(HpaSpec {
            target_kind: "Deployment".to_string(),
            target_name: name.to_string(),
            min_replicas: Some(1),
            max_replicas: max,
            metrics: vec![],
        }),
        current_replicas: Some(2),
    };
    let hpas = Some(vec![hpa("api", 5), hpa("web", 7), hpa("api", 9)]);
    let objects = Some(vec![
        json(
            r#"{ "spec": { "scaleTargetRef": { "name": "api" }, "minReplicaCount": 3, "triggers": [ { "type": "kafka" } ] } }"#,
        ),
        json(r#"{ "spec": { "scaleTargetRef": { "name": "worker", "kind": "StatefulSet" } } }"#),
        json("{}"),
    ]);
    let mut degraded = Degradations::default();
    let map = autoscaler_map(&hpas, &objects, &mut degraded);
    assert!(degraded.into_vec().is_empty());
    assert_eq!(map.len(), 3);

    let api = map
        .get(&("Deployment".to_string(), "api".to_string()))
        .expect("api");
    assert!(api.has_hpa && api.keda_scaled);
    assert_eq!(api.hpa_max_replicas, 9);
    assert_eq!(api.keda_min_replicas, 3);
    assert_eq!(api.keda_trigger_types, "kafka");
    let web = map
        .get(&("Deployment".to_string(), "web".to_string()))
        .expect("web");
    assert!(web.has_hpa && !web.keda_scaled);
    let worker = map
        .get(&("StatefulSet".to_string(), "worker".to_string()))
        .expect("worker");
    assert!(!worker.has_hpa && worker.keda_scaled);
    assert!(map
        .get(&("Deployment".to_string(), "worker".to_string()))
        .is_none());
}

#[test]
fn only_a_failed_list_of_hpas_is_a_degradation() {
    let mut degraded = Degradations::default();
    let map = autoscaler_map(&None, &None, &mut degraded);
    assert!(map.is_empty());
    assert_eq!(degraded.into_vec(), vec!["horizontalpodautoscalers"]);

    let mut degraded = Degradations::default();
    let map = autoscaler_map(&Some(vec![]), &None, &mut degraded);
    assert!(map.is_empty());
    assert!(degraded.into_vec().is_empty());
}

#[test]
fn autoscaler_context_left_absent_keeps_proto_zero_values() {
    let mut wl = WorkloadMetrics::default();
    apply_autoscaler_context(&mut wl, None);
    assert!(!wl.has_hpa);
    assert!(!wl.keda_scaled);
    assert_eq!(wl.hpa_min_replicas, 0);
    assert_eq!(wl.keda_trigger_types, "");
}

#[test]
fn a_keda_scaled_workload_reports_both_hpa_and_keda() {
    // KEDA creates an operator-managed HPA, so both flags are legitimately set.
    let ctx = AutoscalerContext {
        has_hpa: true,
        hpa_min_replicas: 1,
        hpa_max_replicas: 20,
        hpa_target_cpu_pct: 70,
        hpa_current_replicas: 1,
        keda_scaled: true,
        keda_min_replicas: 1,
        keda_trigger_types: "kafka".to_string(),
    };
    let mut wl = WorkloadMetrics::default();
    apply_autoscaler_context(&mut wl, Some(&ctx));

    assert!(wl.has_hpa && wl.keda_scaled);
    assert_eq!(wl.hpa_max_replicas, 20);
    assert_eq!(wl.keda_min_replicas, 1);
    assert_eq!(wl.keda_trigger_types, "kafka");
}

#[test]
fn negative_counts_become_zero() {
    assert_eq!(to_u32(-1), 0);
    assert_eq!(to_u32(i32::MIN), 0);
    assert_eq!(to_u32(0), 0);
    assert_eq!(to_u32(i32::MAX), 2_147_483_647);
}

// ── Node capacity ──────────────────────────────────────────────────────────

fn node_with_resources(alloc_cpu: &str, alloc_mem: &str, cap_cpu: &str, cap_mem: &str) -> Node {
    Node {
        labels: Some(labels(&[("node.kubernetes.io/instance-type", "m5.large")])),
        provider_id: None,
        status: Some(NodeStatus {
            allocatable: Some(labels(&[("cpu", alloc_cpu), ("memory", alloc_mem)])),
            capacity: Some(labels(&[("cpu", cap_cpu), ("memory", cap_mem)])),
        }),
    }
}

#[test]
fn node_resources_reads_allocatable_and_capacity() {
    // Allocatable is deliberately lower than capacity: kubelet/system
    // reservations and eviction thresholds come off the top, and it is
    // allocatable that a scheduler actually places against.
    let n = node_with_resources("1930m", "7134Mi", "2", "8Gi");
    assert_eq!(node_resources(&n), [1930, 7134, 2000, 8192]);
}

#[test]
fn node_resources_are_zero_when_the_status_is_missing() {
    let bare = Node {
        labels: None,
        provider_id: None,
        status: None,
    };
    assert_eq!(node_resources(&bare), [0; 4]);
    let silent = Node {
        labels: None,
        provider_id: None,
        status: Some(NodeStatus {
            allocatable: None,
            capacity: Some(labels(&[("memory", "1Gi")])),
        }),
    };
    assert_eq!(node_resources(&silent), [0, 0, 0, 1024]);
}

#[test]
fn node_pool_capacity_is_per_node_not_the_pool_total() {
    // Three identical nodes in one pool: the emitted figures describe ONE
    // node, so a consumer multiplies by node_count. Summing instead would
    // silently treble every packing calculation.
    let nodes = vec![
        node_with_resources("2", "8Gi", "2", "8Gi"),
        node_with_resources("2", "8Gi", "2", "8Gi"),
        node_with_resources("2", "8Gi", "2", "8Gi"),
    ];
    let (pools, _, _) = aggregate_node_pools(&nodes);

    assert_eq!(pools.len(), 1);
    assert_eq!(pools[0].node_count, 3);
    assert_eq!(pools[0].cpu_allocatable_m, 2000);
    assert_eq!(pools[0].memory_allocatable_mi, 8192);
}

#[test]
fn node_pool_figures_are_averages_cut_to_whole_numbers() {
    let nodes = vec![
        node_with_resources("1", "1Gi", "1", "1Gi"),
        node_with_resources("2", "2Mi", "4000000", "4096Ti"),
        node_with_resources("2", "0", "4000000", "1Ti"),
    ];
    let (pools, region, provider) = aggregate_node_pools(&nodes);
    assert_eq!(pools[0].cpu_allocatable_m, 1666);
    assert_eq!(pools[0].memory_allocatable_mi, 342);
    assert_eq!(pools[0].cpu_capacity_m, 2_666_667_000);
    assert_eq!(pools[0].memory_capacity_mi, 1_432_005_631);
    assert_eq!(region, "");
    assert_eq!(provider, "");
}

// ── Right-sizing guardrails ────────────────────────────────────────────────

fn pdb(pairs: &[(&str, &str)], min: u32) -> (Labels, u32) {
    (labels(pairs), min)
}

#[test]
fn pdb_selects_a_pod_only_when_every_match_label_agrees() {
    let pdbs = vec![pdb(&[("app", "api"), ("tier", "web")], 2)];

    // All selector labels present with matching values.
    let pod = labels(&[("app", "api"), ("tier", "web"), ("extra", "ignored")]);
    assert_eq!(pdb_floor(&pdbs, Some(&pod)), Some(2));

    // One label missing — a PDB requiring both must not select this pod.
    let partial = labels(&[("app", "api")]);
    assert_eq!(pdb_floor(&pdbs, Some(&partial)), None);

    // Present but different value.
    let wrong = labels(&[("app", "api"), ("tier", "batch")]);
    assert_eq!(pdb_floor(&pdbs, Some(&wrong)), None);
}

#[test]
fn pdb_floor_takes_the_strictest_of_several_matching_budgets() {
    let pdbs = vec![pdb(&[("app", "api")], 1), pdb(&[("app", "api")], 4)];
    let pod = labels(&[("app", "api")]);
    assert_eq!(pdb_floor(&pdbs, Some(&pod)), Some(4));
    let pdbs = vec![
        pdb(&[("app", "api")], 4),
        pdb(&[("app", "web")], 9),
        pdb(&[("app", "api")], 1),
    ];
    assert_eq!(pdb_floor(&pdbs, Some(&pod)), Some(4));
}

#[test]
fn a_percentage_pdb_still_marks_the_workload_guarded() {
    // A percentage minAvailable counts as 0; the caller sets has_pdb
    // from the Some(_), so the workload is still known to be guarded.
    let pdbs = vec![pdb(&[("app", "api")], 0)];
    let pod = labels(&[("app", "api")]);
    assert_eq!(pdb_floor(&pdbs, Some(&pod)), Some(0));
}

#[test]
fn a_pod_with_no_labels_is_never_selected() {
    let pdbs = vec![pdb(&[("app", "api")], 2)];
    assert_eq!(pdb_floor(&pdbs, None), None);
}

#[test]
fn budgets_without_match_labels_guard_nothing() {
    let budget = |match_labels: Option<Labels>, min_available: Option<IntOrString>| {
        PodDisruptionBudget {
            match_labels,
            min_available,
        }
    };
    let kept = budget_floors(&vec![
        budget(None, Some(IntOrString::Int(1))),
        budget(Some(labels(&[])), Some(IntOrString::Int(2))),
        budget(Some(labels(&[("app", "a")])), Some(IntOrString::Int(3))),
        budget(
            Some(labels(&[("app", "b")])),
            Some(IntOrString::Text("50%".to_string())),
        ),
        budget(Some(labels(&[("app", "c")])), None),
        budget(Some(labels(&[("app", "d")])), Some(IntOrString::Int(-5))),
    ]);
    let floors: Vec<u32> = kept.iter().map(|(_, n)| *n).collect();
    assert_eq!(floors, vec![3, 0, 0, 0]);
    assert_eq!(
        kept[0].0.get(&"app".to_string()).map(|s| s.as_str()),
        Some("a")
    );
}

#[test]
fn workload_health_left_absent_keeps_proto_zero_values() {
    let mut wl = WorkloadMetrics::default();
    apply_workload_health(&mut wl, None);
    assert_eq!(wl.oom_killed_count, 0);
    assert_eq!(wl.restart_count, 0);
    assert_eq!(wl.qos_class, "");
    assert!(!wl.has_pdb);
}

#[test]
fn workload_health_carries_the_signals_that_make_shrinking_unsafe() {
    let h = WorkloadHealth {
        restart_count: 7,
        oom_killed_count: 2,
        qos_class: "Guaranteed".to_string(),
        has_pdb: true,
        pdb_min_available: 3,
    };
    let mut wl = WorkloadMetrics::default();
    apply_workload_health(&mut wl, Some(&h));

    assert_eq!(wl.oom_killed_count, 2);
    assert_eq!(wl.restart_count, 7);
    assert_eq!(wl.qos_class, "Guaranteed");
    assert!(wl.has_pdb);
    assert_eq!(wl.pdb_min_available, 3);
}

#[test]
fn an_empty_metrics_response_is_not_the_same_as_no_metrics_server() {
    // metrics-server answering with zero pods is a real, empty result.
    let empty = parse_pod_metrics_json(&json(r#"{ "items": [] }"#));
    assert!(empty.is_empty());

    let populated = parse_pod_metrics_json(&json(
        r#"{
            "items": [{
                "metadata": { "namespace": "default", "name": "api-0" },
                "containers": [{ "name": "main", "usage": { "cpu": "250m", "memory": "128Mi" } }]
            }]
        }"#,
    ));
    assert_eq!(populated.len(), 1);
}

// ── Time ───────────────────────────────────────────────────────────────────

fn timestamp(text: &str) -> Timestamp {
    let ts: k8s_openapi::jiff::Timestamp = text.parse().expect("timestamp parses");
    Timestamp::from_nanosecond(ts.as_nanosecond()).expect("in range")
}

fn shifted(ts: &Timestamp, hours: i128) -> Timestamp {
    Timestamp::from_nanosecond(ts.as_nanosecond() + hours * 3_600_000_000_000).expect("in range")
}

#[test]
fn cronjob_timestamps_are_whole_seconds_the_backend_can_parse() {
    // The backend rejects more than six fractional digits — so emit none at all.
    let ts = timestamp("2024-05-01T12:05:00.123456789Z");
    assert_eq!(format_rfc3339(&ts), "2024-05-01T12:05:00Z");
}

#[test]
fn timestamps_of_one_second_are_written_alike() {
    for text in [
        "2024-05-01T12:05:00Z",
        "1969-12-31T23:59:58Z",
        "0001-01-01T00:00:00Z",
        "9999-12-30T00:00:00Z",
    ] {
        let start = timestamp(text);
        for nanos in [1, 500_000_000, 999_999_999] {
            let later = Timestamp::from_nanosecond(start.as_nanosecond() + nanos).expect("in range");
            assert_eq!(format_rfc3339(&later), text);
            assert_eq!(format_rfc3339(&start), text);
        }
    }
}

#[test]
fn test_days_since_past() {
    let ts = shifted(&Timestamp::now(), -5 * 24);
    assert_eq!(days_since(&ts), 5);
}

#[test]
fn test_days_since_future_clamps_to_zero() {
    let ts = shifted(&Timestamp::now(), 3 * 24);
    assert_eq!(days_since(&ts), 0);
}

#[test]
fn days_are_counted_when_they_are_over() {
    let now = timestamp("2024-05-10T00:00:00Z");
    for (then, days) in [
        ("2024-05-10T00:00:00Z", 0),
        ("2024-05-09T00:00:01Z", 0),
        ("2024-05-09T00:00:00Z", 1),
        ("2024-05-08T23:59:59.999999999Z", 1),
        ("2024-05-08T00:00:00.000000001Z", 1),
        ("2024-05-08T00:00:00Z", 2),
        ("2023-05-10T00:00:00Z", 366),
        ("2024-05-10T00:00:00.5Z", 0),
        ("2025-01-01T00:00:00Z", 0),
    ] {
        assert_eq!(whole_days_between(&now, &timestamp(then)), days, "{then}");
    }
}

#[test]
fn the_range_of_timestamps_is_that_of_the_formatter() {
    let min = k8s_openapi::jiff::Timestamp::MIN.as_nanosecond();
    let max = k8s_openapi::jiff::Timestamp::MAX.as_nanosecond();
    let first = Timestamp::from_nanosecond(min).expect("smallest");
    let last = Timestamp::from_nanosecond(max).expect("largest");
    assert!(Timestamp::from_nanosecond(min - 1).is_none());
    assert!(Timestamp::from_nanosecond(max + 1).is_none());
    for ts in [first, last] {
        let text = format_rfc3339(&ts);
        assert!(text.ends_with('Z') && !text.contains('.'), "{text}");
    }
    assert_eq!(whole_days_between(&last, &first), 7_304_481);
}

// ── Usage ──────────────────────────────────────────────────────────────────

fn metric(name: &str, cpu: &str, memory: &str) -> ContainerMetric {
    ContainerMetric {
        name: name.to_string(),
        cpu: Some(cpu.to_string()),
        memory: Some(memory.to_string()),
    }
}

fn owner(workload_type: &str, workload_name: &str) -> PodOwner {
    PodOwner {
        workload_type: workload_type.to_string(),
        workload_name: workload_name.to_string(),
    }
}

fn usage_key(container: &str) -> (String, String, String, String) {
    (
        "default".to_string(),
        "Deployment".to_string(),
        "api".to_string(),
        container.to_string(),
    )
}

#[test]
fn test_aggregate_workload_usage_single_pod() {
    let mut pod_metrics = PodMetrics::new();
    pod_metrics.insert(
        ("default".to_string(), "api-abc".to_string()),
        vec![metric("main", "100m", "256Mi")],
    );

    let mut owner_map = OwnerMap::new();
    owner_map.insert(
        ("default".to_string(), "api-abc".to_string()),
        owner("Deployment", "api"),
    );

    let usage = aggregate_workload_usage(&pod_metrics, &owner_map);
    let u = usage
        .get(&usage_key("main"))
        .expect("usage entry should exist");
    assert_eq!(u.pod_count(), 1);
    assert_eq!(cpu_m_total(u), 100.0);
    assert_eq!(mem_mi_total(u), 256.0);
}

#[test]
fn test_aggregate_workload_usage_multiple_pods() {
    let mut pod_metrics = PodMetrics::new();
    for i in 0..3u32 {
        pod_metrics.insert(
            ("default".to_string(), format!("api-pod-{i}")),
            vec![metric("main", "50m", "128Mi")],
        );
    }

    let mut owner_map = OwnerMap::new();
    for i in 0..3u32 {
        owner_map.insert(
            ("default".to_string(), format!("api-pod-{i}")),
            owner("Deployment", "api"),
        );
    }

    let usage = aggregate_workload_usage(&pod_metrics, &owner_map);
    let u = usage
        .get(&usage_key("main"))
        .expect("usage entry should exist");
    assert_eq!(u.pod_count(), 3);
    assert_eq!(cpu_m_total(u), 150.0);
    assert_eq!(mem_mi_total(u) / u.pod_count() as f64, 128.0);
}

#[test]
fn test_aggregate_workload_usage_ignores_unmapped_pods() {
    let mut pod_metrics = PodMetrics::new();
    pod_metrics.insert(
        ("default".to_string(), "orphan-pod".to_string()),
        vec![metric("main", "200m", "512Mi")],
    );

    // No entry in owner_map → pod is unmapped, should be silently skipped
    let owner_map = OwnerMap::new();
    let usage = aggregate_workload_usage(&pod_metrics, &owner_map);
    assert!(usage.is_empty());
}

#[test]
fn usage_is_kept_apart_by_container() {
    let mut pod_metrics = PodMetrics::new();
    let mut owner_map = OwnerMap::new();
    for pod in ["a", "b"] {
        pod_metrics.insert(
            ("default".to_string(), pod.to_string()),
            vec![metric("main", "10m", "1Mi"), metric("sidecar", "1m", "2Mi")],
        );
        owner_map.insert(
            ("default".to_string(), pod.to_string()),
            owner("Deployment", "api"),
        );
    }
    let usage = aggregate_workload_usage(&pod_metrics, &owner_map);
    assert_eq!(usage.len(), 2);
    let sidecar = usage.get(&usage_key("sidecar")).expect("sidecar");
    assert_eq!(sidecar.pod_count(), 2);
    assert_eq!(cpu_m_total(sidecar), 2.0);
    assert_eq!(mem_mi_total(sidecar), 4.0);
}

// ── /version endpoint ──────────────────────────────────────────────────────

#[test]
fn test_parse_k8s_version_vanilla_1_21_through_1_31() {
    for minor in 21..=31u32 {
        let body = json(&format!(
            r#"{{ "major": "1", "minor": "{minor}", "gitVersion": "v1.{minor}.0", "platform": "linux/amd64" }}"#
        ));
        assert_eq!(
            parse_k8s_version(&body),
            Some(format!("1.{minor}")),
            "failed for minor {minor}"
        );
    }
}

#[test]
fn test_parse_k8s_version_managed_cluster_plus_suffix() {
    // EKS: `kubectl version` shows minor "27+" for the EKS 1.27 control plane.
    let eks = json(r#"{ "major": "1", "minor": "27+", "gitVersion": "v1.27.9-eks-5e0fdde" }"#);
    assert_eq!(parse_k8s_version(&eks), Some("1.27+".to_string()));

    // GKE reports the same "+" convention on older channels.
    let gke = json(r#"{ "major": "1", "minor": "21+", "gitVersion": "v1.21.14-gke.700" }"#);
    assert_eq!(parse_k8s_version(&gke), Some("1.21+".to_string()));
}

#[test]
fn test_parse_k8s_version_missing_fields_returns_none() {
    assert_eq!(parse_k8s_version(&json(r#"{ "major": "1" }"#)), None);
    assert_eq!(parse_k8s_version(&json(r#"{ "minor": "29" }"#)), None);
    assert_eq!(parse_k8s_version(&json("{}")), None);
    // Non-string fields (defensive against malformed proxies)
    assert_eq!(
        parse_k8s_version(&json(r#"{ "major": 1, "minor": 29 }"#)),
        None
    );
}

#[test]
fn the_last_member_of_a_name_counts() {
    let twice = Json::Object(vec![
        ("major".to_string(), Json::Text("0".to_string())),
        ("minor".to_string(), Json::Text("9".to_string())),
        ("major".to_string(), Json::Text("1".to_string())),
    ]);
    assert_eq!(parse_k8s_version(&twice), Some("1.9".to_string()));
    assert!(twice.get("patch").is_none());
    assert!(matches!(twice.at("patch"), Json::Null));
    assert!(Json::Text("major".to_string()).get("major").is_none());
    assert_eq!(Json::Integer(-4).as_i64(), Some(-4));
    assert_eq!(Json::OtherNumber.as_i64(), None);
    assert_eq!(Json::Bool(true).as_i64(), None);
}

// ── metrics.k8s.io ─────────────────────────────────────────────────────────

fn pod_key(namespace: &str, name: &str) -> (String, String) {
    (namespace.to_string(), name.to_string())
}

#[test]
fn test_parse_pod_metrics_nanocores_and_ki() {
    // Shape emitted by metrics-server on 1.21–1.24 in-cluster: nanocores + Ki.
    let body = json(
        r#"{
            "kind": "PodMetricsList",
            "apiVersion": "metrics.k8s.io/v1beta1",
            "items": [{
                "metadata": { "name": "api-7d9", "namespace": "default" },
                "containers": [{
                    "name": "main",
                    "usage": { "cpu": "250000000n", "memory": "262144Ki" }
                }]
            }]
        }"#,
    );

    let map = parse_pod_metrics_json(&body);
    let c = &map.get(&pod_key("default", "api-7d9")).expect("pod")[0];
    assert_eq!(c.name, "main");
    assert_eq!(cpu_m(&c.cpu), 250.0);
    assert_eq!(mem_mi(&c.memory), 256.0); // 262144 Ki = 256 Mi
}

#[test]
fn test_parse_pod_metrics_millicores_and_mi() {
    // Some metrics-server builds report already-reduced units.
    let body = json(
        r#"{
            "items": [{
                "metadata": { "name": "web-0", "namespace": "shop" },
                "containers": [{ "name": "nginx", "usage": { "cpu": "250m", "memory": "512Mi" } }]
            }]
        }"#,
    );

    let map = parse_pod_metrics_json(&body);
    let c = &map.get(&pod_key("shop", "web-0")).expect("pod")[0];
    assert_eq!(cpu_m(&c.cpu), 250.0);
    assert_eq!(mem_mi(&c.memory), 512.0);
}

#[test]
fn test_parse_pod_metrics_multi_container_multi_pod() {
    let body = json(
        r#"{
            "items": [
                {
                    "metadata": { "name": "api-a", "namespace": "prod" },
                    "containers": [
                        { "name": "app", "usage": { "cpu": "100m", "memory": "128Mi" } },
                        { "name": "sidecar", "usage": { "cpu": "10m", "memory": "32Mi" } }
                    ]
                },
                {
                    "metadata": { "name": "api-b", "namespace": "prod" },
                    "containers": [
                        { "name": "app", "usage": { "cpu": "1", "memory": "1Gi" } }
                    ]
                }
            ]
        }"#,
    );

    let map = parse_pod_metrics_json(&body);
    assert_eq!(map.len(), 2);

    let a = map.get(&pod_key("prod", "api-a")).expect("pod");
    assert_eq!(a.len(), 2);

    let b = &map.get(&pod_key("prod", "api-b")).expect("pod")[0];
    assert_eq!(cpu_m(&b.cpu), 1000.0); // "1" whole core
    assert_eq!(mem_mi(&b.memory), 1024.0); // 1Gi
}

#[test]
fn test_parse_pod_metrics_empty_and_missing_items() {
    assert!(parse_pod_metrics_json(&json(r#"{ "items": [] }"#)).is_empty());
    // metrics-server unavailable / unexpected body → empty, never panics.
    assert!(parse_pod_metrics_json(&json("{}")).is_empty());
    assert!(parse_pod_metrics_json(&json(r#"{ "items": "garbage" }"#)).is_empty());
}

#[test]
fn test_parse_pod_metrics_skips_container_without_usage() {
    // A container missing `usage` is dropped; pods with no usable containers
    // are omitted entirely.
    let body = json(
        r#"{
            "items": [{
                "metadata": { "name": "p", "namespace": "n" },
                "containers": [{ "name": "no-usage" }]
            }]
        }"#,
    );
    assert!(parse_pod_metrics_json(&body).is_empty());
}

#[test]
fn pod_metrics_of_odd_shape_are_read_as_far_as_they_go() {
    let body = json(
        r#"{
            "items": [
                { "containers": [{ "name": "x", "usage": {} }] },
                { "metadata": {}, "containers": [{ "name": "x", "usage": {} }] },
                { "metadata": { "name": "p", "namespace": "n" },
                  "containers": [{ "name": 3, "usage": {} }, { "name": "y", "usage": 4 }, { "name": "z", "usage": { "cpu": 5, "memory": "1Mi" } }] },
                { "metadata": { "name": "q", "namespace": "n" }, "containers": "none" }
            ]
        }"#,
    );
    let map = parse_pod_metrics_json(&body);
    assert_eq!(map.len(), 2);
    let nameless = map.get(&pod_key("", "")).expect("pod without a name");
    assert!(nameless[0].cpu.is_none() && nameless[0].memory.is_none());
    let p = map.get(&pod_key("n", "p")).expect("pod");
    assert_eq!(p.len(), 2);
    assert_eq!(p[0].name, "y");
    assert!(p[1].cpu.is_none());
    assert_eq!(p[1].memory.as_deref(), Some("1Mi"));
}

// ── Node pricing metadata: providerID parsing + pool aggregation ────────────

#[test]
fn test_parse_provider_id() {
    assert_eq!(parse_provider_id("aws:///us-east-1a/i-0abc123"), "aws");
    assert_eq!(
        parse_provider_id("gce://my-proj/us-central1-a/gke-node"),
        "gcp"
    );
    assert_eq!(
        parse_provider_id("azure:///subscriptions/x/resourceGroups/y/vm/z"),
        "azure"
    );
    assert_eq!(parse_provider_id(""), "");
    // Unknown scheme passes through; a value with no scheme is unknown.
    assert_eq!(parse_provider_id("digitalocean://12345"), "digitalocean");
    assert_eq!(parse_provider_id("no-scheme"), "");
    assert_eq!(parse_provider_id("a:/b://c://d"), "a:/b");
    assert_eq!(parse_provider_id("://x"), "");
    assert_eq!(parse_provider_id("x:/"), "");
}

fn node_fixture(pairs: &[(&str, &str)], provider_id: &str) -> Node {
    Node {
        labels: Some(labels(pairs)),
        provider_id: Some(provider_id.to_string()),
        status: None,
    }
}

#[test]
fn test_aggregate_node_pools_mixed() {
    let on_demand_labels = [
        ("node.kubernetes.io/instance-type", "m5.large"),
        ("topology.kubernetes.io/region", "us-east-1"),
    ];
    let spot_labels = [
        ("node.kubernetes.io/instance-type", "m5.large"),
        ("topology.kubernetes.io/region", "us-east-1"),
        ("karpenter.sh/capacity-type", "spot"),
    ];
    // No instance-type label, but still in the region and counted.
    let no_type_labels = [("topology.kubernetes.io/region", "us-east-1")];

    let nodes = vec![
        node_fixture(&on_demand_labels, "aws:///us-east-1a/i-1"),
        node_fixture(&on_demand_labels, "aws:///us-east-1a/i-2"),
        node_fixture(&spot_labels, "aws:///us-east-1b/i-3"),
        node_fixture(&no_type_labels, "aws:///us-east-1c/i-4"),
    ];

    let (pools, region, provider) = aggregate_node_pools(&nodes);

    assert_eq!(region, "us-east-1");
    assert_eq!(provider, "aws");

    // node_count across all pools must still equal the 4 input nodes.
    let total: u32 = pools.iter().map(|p| p.node_count).sum();
    assert_eq!(total, 4);

    let find = |it: &str, cap: &str| {
        pools
            .iter()
            .find(|p| p.instance_type == it && p.region == "us-east-1" && p.capacity_type == cap)
            .map(|p| p.node_count)
    };
    assert_eq!(find("m5.large", "on-demand"), Some(2));
    assert_eq!(find("m5.large", "spot"), Some(1));
    assert_eq!(find("", "on-demand"), Some(1));
    assert_eq!(pools.len(), 3);
}

#[test]
fn pools_come_in_the_order_of_their_keys() {
    let node = |it: &str, region: &str, spot: &str| {
        node_fixture(
            &[
                ("node.kubernetes.io/instance-type", it),
                ("topology.kubernetes.io/region", region),
                ("cloud.google.com/gke-spot", spot),
            ],
            "",
        )
    };
    let nodes = vec![
        node("z", "a", "false"),
        node("b", "b", "true"),
        node("b", "b", "false"),
        node("b", "a", "true"),
        node("", "b", "false"),
        node("é", "a", "false"),
    ];
    let (pools, _, _) = aggregate_node_pools(&nodes);
    let keys: Vec<(&str, &str, &str)> = pools
        .iter()
        .map(|p| {
            (
                p.instance_type.as_str(),
                p.region.as_str(),
                p.capacity_type.as_str(),
            )
        })
        .collect();
    let mut sorted = keys.clone();
    sorted.sort();
    assert_eq!(keys, sorted);
    assert_eq!(
        keys,
        vec![
            ("", "b", "on-demand"),
            ("b", "a", "spot"),
            ("b", "b", "on-demand"),
            ("b", "b", "spot"),
            ("z", "a", "on-demand"),
            ("é", "a", "on-demand"),
        ]
    );
}

#[test]
fn the_most_common_region_wins_and_ties_go_by_name() {
    let node = |region: &str| node_fixture(&[("topology.kubernetes.io/region", region)], "");
    let region = |regions: &[&str]| {
        let nodes: Vec<Node> = regions.iter().map(|r| node(r)).collect();
        aggregate_node_pools(&nodes).1
    };
    assert_eq!(region(&["b", "a", "b"]), "b");
    assert_eq!(region(&["b", "a"]), "a");
    assert_eq!(region(&["c", "b", "a", "b", "c"]), "b");
    assert_eq!(region(&["", "", "", "x"]), "x");
    assert_eq!(region(&["", ""]), "");
    assert_eq!(region(&[]), "");
    assert_eq!(region(&["aa", "a", "ab"]), "a");
}

#[test]
fn pools_and_region_do_not_depend_on_the_order_of_nodes() {
    let make = |k: usize| {
        let region = ["eu-1", "us-1", ""][k % 3];
        let mut n = node_with_resources(["1", "2500m", "0.5"][k % 3], "4Gi", "4", "16Gi");
        n.labels = Some(labels(&[
            ("node.kubernetes.io/instance-type", ["a", "b"][k % 2]),
            ("topology.kubernetes.io/region", region),
        ]));
        n
    };
    let view = |order: &[usize]| {
        let nodes: Vec<Node> = order.iter().map(|k| make(*k)).collect();
        let (pools, region, _) = aggregate_node_pools(&nodes);
        let text: Vec<String> = pools.iter().map(|p| format!("{p:?}")).collect();
        (text, region)
    };
    let forward = view(&[0, 1, 2, 3, 4, 5, 6]);
    assert_eq!(forward.1, "eu-1");
    assert_eq!(view(&[6, 5, 4, 3, 2, 1, 0]), forward);
    assert_eq!(view(&[3, 0, 6, 1, 5, 2, 4]), forward);
}

#[test]
fn the_first_provider_that_is_named_counts() {
    let nodes = vec![
        node_fixture(&[], ""),
        node_fixture(&[], "no-scheme"),
        node_fixture(&[], "gce://x"),
        node_fixture(&[], "aws:///y"),
    ];
    assert_eq!(aggregate_node_pools(&nodes).2, "gcp");
}

#[test]
fn test_node_meta_legacy_labels_and_no_provider() {
    // Legacy label keys are honored; an empty providerID stays unknown.
    let node = node_fixture(
        &[
            ("beta.kubernetes.io/instance-type", "n1-standard-4"),
            ("failure-domain.beta.kubernetes.io/region", "europe-west1"),
        ],
        "",
    );
    let meta = node_meta(&node);
    assert_eq!(meta.instance_type, "n1-standard-4");
    assert_eq!(meta.region, "europe-west1");
    assert_eq!(meta.capacity_type, "on-demand");
    assert_eq!(meta.provider, "");
}

#[test]
fn current_labels_come_before_legacy_ones() {
    let node = node_fixture(
        &[
            ("beta.kubernetes.io/instance-type", "old"),
            ("node.kubernetes.io/instance-type", "new"),
            ("failure-domain.beta.kubernetes.io/region", "old"),
            ("topology.kubernetes.io/region", ""),
        ],
        "azure:///x",
    );
    let meta = node_meta(&node);
    assert_eq!(meta.instance_type, "new");
    assert_eq!(meta.region, "");
    assert_eq!(meta.provider, "azure");
}

#[test]
fn test_capacity_type_spot_signals() {
    let spot_signals = [
        ("eks.amazonaws.com/capacityType", "SPOT"),
        ("cloud.google.com/gke-spot", "true"),
        ("kubernetes.azure.com/scalesetpriority", "spot"),
        ("karpenter.sh/capacity-type", "spot"),
    ];
    for (key, val) in spot_signals {
        let mut labels = Labels::new();
        labels.insert(key.to_string(), val.to_string());
        assert_eq!(capacity_type_from_labels(&labels), "spot", "for {key}");
    }
    // On-demand / absent signals.
    let mut on_demand = Labels::new();
    on_demand.insert(
        "eks.amazonaws.com/capacityType".to_string(),
        "ON_DEMAND".to_string(),
    );
    assert_eq!(capacity_type_from_labels(&on_demand), "on-demand");
    assert_eq!(capacity_type_from_labels(&Labels::new()), "on-demand");
}

// ── Degradations ───────────────────────────────────────────────────────────

#[test]
fn degradations_dedup_and_sort() {
    let mut d = Degradations::default();
    // The same subsystem failing once per namespace is the common case.
    d.record("pods");
    d.record("pods");
    d.record("metrics-server");
    d.record("deployments");
    assert_eq!(
        d.into_vec(),
        vec!["deployments", "metrics-server", "pods"],
        "one entry per subsystem, in a stable order"
    );
}

#[test]
fn degradations_empty_on_a_clean_pass() {
    assert!(Degradations::default().into_vec().is_empty());
}

#[test]
fn degradations_do_not_depend_on_the_order_of_failures() {
    let names = ["events", "pods", "jobs", "cronjobs", "deployments"];
    let mut expected: Vec<String> = names.iter().map(|n| n.to_string()).collect();
    expected.sort();
    for start in 0..names.len() {
        let mut d = Degradations::default();
        for i in 0..names.len() * 2 {
            d.record(names[(start + i * 3) % names.len()]);
        }
        assert_eq!(d.into_vec(), expected);
    }
}
