//! The snapshot of a cluster, put together from what the API server returned.

use crate::autoscaler::{
    autoscaler_map, contexts, listed, recorded_if_failed, AutoscalerMap, AutoscalerModel,
    HorizontalPodAutoscaler,
};
use crate::config::Config;
use crate::degradations::{strictly_sorted, Degradations};
use crate::json::{parse_k8s_version, version_text, Json};
use crate::nodes::{
    aggregate_node_pools, first_provider, labels_of, pools_of, primary_region, Node, NodePool,
};
use crate::pods::{
    activity_by_namespace, build_pod_owner_map, health_by_workload, lemma_wrapped_add,
    owners_by_pod, recorded_for_pods, sightings, wrapped, youngest, ActivityMap, HealthMap,
    HealthModel, OwnerReference, PodListing,
};
use crate::quantity::ends_with;
use crate::snapshot_laws::law_excluded_namespaces_are_no_targets;
use crate::table::{keys_distinct, look_up, looked_up, map_of, Table};
use crate::text::{same_text, views};
use crate::time::{
    days_between, format_rfc3339, in_time_range, utc_text, whole_days_between, Timestamp,
};
use crate::usage::{
    aggregate_workload_usage, parse_pod_metrics_json, pod_metrics, readings, usage_by_container,
    ContainerMetric, MetricModel, PodMetrics, UsageMap,
};
use crate::workload::{
    apply_autoscaler_context, apply_workload_health, billed, build_workload_metrics, plain_row,
    with_context, with_health, Container, WorkloadMetrics, WorkloadModel,
};
use vstd::prelude::*;

verus! {

/// A Deployment, StatefulSet or DaemonSet.
pub struct Workload {
    pub name: Option<String>,
    pub created: Option<Timestamp>,
    pub replicas: Option<i32>,
    pub containers: Vec<Container>,
}

/// A CronJob.
pub struct CronJob {
    pub name: Option<String>,
    pub created: Option<Timestamp>,
    pub suspend: Option<bool>,
    pub last_schedule: Option<Timestamp>,
    pub containers: Vec<Container>,
}

/// A Job: its failed pods, and what owns it.
pub struct Job {
    pub failed: Option<i32>,
    pub owners: Vec<OwnerReference>,
}

/// What the list calls about the workloads of a namespace returned, `None` where
/// one failed. `jobs` is read only where there are CronJobs.
pub struct WorkloadListing {
    pub namespace: String,
    pub hpas: Option<Vec<HorizontalPodAutoscaler>>,
    pub scaled_objects: Option<Vec<Json>>,
    pub deployments: Option<Vec<Workload>>,
    pub stateful_sets: Option<Vec<Workload>>,
    pub daemon_sets: Option<Vec<Workload>>,
    pub cron_jobs: Option<Vec<CronJob>>,
    pub jobs: Option<Vec<Job>>,
}

/// When the events of a namespace were last seen, `None` where the list call failed.
pub struct EventListing {
    pub namespace: String,
    pub events: Option<Vec<Option<Timestamp>>>,
}

/// What a collection pass read of a cluster. `version` and `pod_metrics` are `None`
/// where they could not be read.
pub struct ClusterListing {
    pub version: Option<Json>,
    pub nodes: Vec<Node>,
    pub pod_metrics: Option<Json>,
    pub pods: Vec<PodListing>,
    pub workloads: Vec<WorkloadListing>,
    pub events: Vec<EventListing>,
}

/// One namespace, as the snapshot reports it. Its cost is that of the workload rows
/// from `billed_from` up to `billed_to`.
pub struct NamespaceMetrics {
    pub name: String,
    pub workload_count: u32,
    pub days_since_last_activity: u32,
    pub billed_from: usize,
    pub billed_to: usize,
}

/// [`NamespaceMetrics`] as a mathematical value.
pub struct NamespaceModel {
    pub name: Seq<char>,
    pub workload_count: u32,
    pub days_since_last_activity: u32,
    pub billed_from: int,
    pub billed_to: int,
}

/// The snapshot of a cluster, without what follows from its rows by pricing.
pub struct AgentSnapshot {
    pub k8s_version: String,
    pub node_count: u32,
    pub cloud_provider: String,
    pub workloads: Vec<WorkloadMetrics>,
    pub namespaces: Vec<NamespaceMetrics>,
    pub collected_at: String,
    pub region: String,
    pub node_pools: Vec<NodePool>,
    pub agent_version: String,
    pub metrics_available: bool,
    pub collection_duration_ms: u32,
    pub partial_failures: Vec<String>,
}

/// How many workloads a namespace has, and which rows its cost is made of.
#[derive(Clone, Copy)]
pub struct NamespaceTotals {
    pub workload_count: u32,
    pub billed_from: usize,
    pub billed_to: usize,
}

impl DeepView for NamespaceMetrics {
    type V = NamespaceModel;

    open spec fn deep_view(&self) -> NamespaceModel {
        NamespaceModel {
            name: self.name@,
            workload_count: self.workload_count,
            days_since_last_activity: self.days_since_last_activity,
            billed_from: self.billed_from as int,
            billed_to: self.billed_to as int,
        }
    }
}

impl DeepView for NamespaceTotals {
    type V = (u32, int, int);

    open spec fn deep_view(&self) -> (u32, int, int) {
        (self.workload_count, self.billed_from as int, self.billed_to as int)
    }
}

/// The health of workloads, by namespace, type and name.
pub type HealthByWorkload = Map<(Seq<char>, Seq<char>, Seq<char>), HealthModel>;

/// What containers report, by namespace, workload type, workload name and container.
pub type UsageByContainer = Map<
    (Seq<char>, Seq<char>, Seq<char>, Seq<char>),
    Seq<(Option<Seq<char>>, Option<Seq<char>>)>,
>;

/// Autoscaler contexts, by workload type and name.
pub type ScalingByWorkload = Map<(Seq<char>, Seq<char>), AutoscalerModel>;

/// The days since `created`, zero where it is not known.
pub open spec fn age(created: Option<Timestamp>, now: int) -> u32 {
    match created {
        Some(ts) => days_between(now, ts@),
        None => 0,
    }
}

/// The name, empty where there is none.
pub open spec fn name_or_empty(name: Option<String>) -> Seq<char> {
    match name {
        Some(n) => n@,
        None => Seq::empty(),
    }
}

/// The replicas that a workload asks for, one where it does not say; a negative
/// number is read as the wire schema's unsigned one.
pub open spec fn replica_count(replicas: Option<i32>) -> u32 {
    match replicas {
        Some(n) => (n as int % 0x1_0000_0000) as u32,
        None => 1,
    }
}

/// The row of one container of a workload.
pub open spec fn workload_row(
    namespace: Seq<char>,
    kind: Seq<char>,
    w: Workload,
    c: Container,
    replicas: u32,
    now: int,
    scaling: ScalingByWorkload,
    health: HealthByWorkload,
    usage: UsageByContainer,
) -> WorkloadModel {
    let name = name_or_empty(w.name);
    with_health(
        with_context(
            plain_row(
                namespace,
                kind,
                name,
                c.name@,
                replicas,
                age(w.created, now),
                c.resources,
                looked_up(usage, (namespace, kind, name, c.name@)),
            ),
            looked_up(scaling, (kind, name)),
        ),
        looked_up(health, (namespace, kind, name)),
    )
}

/// The replicas of a workload: `fixed` where every workload of the list has as many.
pub open spec fn replicas_of(w: Workload, fixed: Option<u32>) -> u32 {
    match fixed {
        Some(n) => n,
        None => replica_count(w.replicas),
    }
}

/// The rows of one workload, one per container.
pub open spec fn rows_of_workload(
    namespace: Seq<char>,
    kind: Seq<char>,
    w: Workload,
    fixed: Option<u32>,
    now: int,
    scaling: ScalingByWorkload,
    health: HealthByWorkload,
    usage: UsageByContainer,
) -> Seq<WorkloadModel> {
    Seq::new(
        w.containers@.len(),
        |i: int|
            workload_row(
                namespace,
                kind,
                w,
                w.containers@[i],
                replicas_of(w, fixed),
                now,
                scaling,
                health,
                usage,
            ),
    )
}

/// The rows of a list of workloads, in order.
pub open spec fn rows_of_workloads(
    namespace: Seq<char>,
    kind: Seq<char>,
    items: Seq<Workload>,
    fixed: Option<u32>,
    now: int,
    scaling: ScalingByWorkload,
    health: HealthByWorkload,
    usage: UsageByContainer,
) -> Seq<WorkloadModel>
    decreases items.len(),
{
    if items.len() == 0 {
        Seq::empty()
    } else {
        rows_of_workloads(namespace, kind, items.drop_last(), fixed, now, scaling, health, usage)
            + rows_of_workload(
            namespace,
            kind,
            items.last(),
            fixed,
            now,
            scaling,
            health,
            usage,
        )
    }
}

/// How many of `owners` are the CronJob called `name`.
pub open spec fn cron_owners(owners: Seq<OwnerReference>, name: Seq<char>) -> nat
    decreases owners.len(),
{
    if owners.len() == 0 {
        0
    } else {
        cron_owners(owners.drop_last(), name) + if owners.last().kind@ == "CronJob"@
            && owners.last().name@ == name {
            1nat
        } else {
            0
        }
    }
}

/// Whether a Job has failed.
pub open spec fn job_failed(job: Job) -> bool {
    match job.failed {
        Some(n) => n > 0,
        None => false,
    }
}

/// How many failed Jobs the CronJob called `name` owns.
pub open spec fn failed_runs(jobs: Seq<Job>, name: Seq<char>) -> nat
    decreases jobs.len(),
{
    if jobs.len() == 0 {
        0
    } else {
        failed_runs(jobs.drop_last(), name) + if job_failed(jobs.last()) {
            cron_owners(jobs.last().owners@, name)
        } else {
            0
        }
    }
}

/// When a CronJob last ran, as the wire schema writes it; empty where it never did.
pub open spec fn schedule_text(last: Option<Timestamp>) -> Seq<char> {
    match last {
        Some(ts) => utc_text(ts@, "%Y-%m-%dT%H:%M:%SZ"@),
        None => Seq::empty(),
    }
}

/// The row of one container of a CronJob. It has no steady replicas: one run at a time.
pub open spec fn cron_row(
    namespace: Seq<char>,
    cj: CronJob,
    c: Container,
    now: int,
    jobs: Seq<Job>,
) -> WorkloadModel {
    let name = name_or_empty(cj.name);
    WorkloadModel {
        cronjob_suspended: cj.suspend == Some(true),
        cronjob_last_schedule_ts: schedule_text(cj.last_schedule),
        cronjob_recent_failures: wrapped(failed_runs(jobs, name)),
        ..plain_row(
            namespace,
            "CronJob"@,
            name,
            c.name@,
            1,
            age(cj.created, now),
            c.resources,
            None,
        )
    }
}

/// The rows of one CronJob, one per container.
pub open spec fn rows_of_cron_job(
    namespace: Seq<char>,
    cj: CronJob,
    now: int,
    jobs: Seq<Job>,
) -> Seq<WorkloadModel> {
    Seq::new(cj.containers@.len(), |i: int| cron_row(namespace, cj, cj.containers@[i], now, jobs))
}

/// The rows of a list of CronJobs, in order.
pub open spec fn rows_of_cron_jobs(
    namespace: Seq<char>,
    items: Seq<CronJob>,
    now: int,
    jobs: Seq<Job>,
) -> Seq<WorkloadModel>
    decreases items.len(),
{
    if items.len() == 0 {
        Seq::empty()
    } else {
        rows_of_cron_jobs(namespace, items.drop_last(), now, jobs) + rows_of_cron_job(
            namespace,
            items.last(),
            now,
            jobs,
        )
    }
}

/// The rows of a namespace whose cost counts toward it: Deployments, StatefulSets
/// and DaemonSets, the last with one replica per node and without autoscalers.
pub open spec fn billed_rows(
    l: WorkloadListing,
    node_count: u32,
    now: int,
    health: HealthByWorkload,
    usage: UsageByContainer,
) -> Seq<WorkloadModel> {
    let scaling = contexts(listed(l.hpas), listed(l.scaled_objects));
    rows_of_workloads(
        l.namespace@,
        "Deployment"@,
        listed(l.deployments),
        None,
        now,
        scaling,
        health,
        usage,
    ) + rows_of_workloads(
        l.namespace@,
        "StatefulSet"@,
        listed(l.stateful_sets),
        None,
        now,
        scaling,
        health,
        usage,
    ) + rows_of_workloads(
        l.namespace@,
        "DaemonSet"@,
        listed(l.daemon_sets),
        Some(node_count),
        now,
        Map::empty(),
        health,
        usage,
    )
}

/// The rows of a namespace: the billed ones, then those of CronJobs.
pub open spec fn namespace_rows(
    l: WorkloadListing,
    node_count: u32,
    now: int,
    health: HealthByWorkload,
    usage: UsageByContainer,
) -> Seq<WorkloadModel> {
    billed_rows(l, node_count, now, health, usage) + rows_of_cron_jobs(
        l.namespace@,
        listed(l.cron_jobs),
        now,
        listed(l.jobs),
    )
}

/// The rows of all namespaces, in order.
pub open spec fn all_rows(
    listings: Seq<WorkloadListing>,
    node_count: u32,
    now: int,
    health: HealthByWorkload,
    usage: UsageByContainer,
) -> Seq<WorkloadModel>
    decreases listings.len(),
{
    if listings.len() == 0 {
        Seq::empty()
    } else {
        all_rows(listings.drop_last(), node_count, now, health, usage) + namespace_rows(
            listings.last(),
            node_count,
            now,
            health,
            usage,
        )
    }
}

/// How many workloads a namespace has.
pub open spec fn workloads_in(l: WorkloadListing) -> nat {
    listed(l.deployments).len() + listed(l.stateful_sets).len() + listed(l.daemon_sets).len()
        + listed(l.cron_jobs).len()
}

/// The totals of every namespace: its workloads, and the places of its billed rows
/// among all rows. Those of the last listing of a namespace where there are several.
pub open spec fn totals_by_namespace(
    listings: Seq<WorkloadListing>,
    node_count: u32,
    now: int,
    health: HealthByWorkload,
    usage: UsageByContainer,
) -> Map<Seq<char>, (u32, int, int)>
    decreases listings.len(),
{
    if listings.len() == 0 {
        Map::empty()
    } else {
        let before = listings.drop_last();
        let from = all_rows(before, node_count, now, health, usage).len() as int;
        let to = from + billed_rows(listings.last(), node_count, now, health, usage).len();
        totals_by_namespace(before, node_count, now, health, usage).insert(
            listings.last().namespace@,
            (wrapped(workloads_in(listings.last())), from, to),
        )
    }
}

/// The time of the latest event, where there is one.
pub open spec fn latest(events: Seq<Option<Timestamp>>) -> Option<int>
    decreases events.len(),
{
    if events.len() == 0 {
        None
    } else {
        match (latest(events.drop_last()), events.last()) {
            (before, None) => before,
            (None, Some(ts)) => Some(ts@),
            (Some(t), Some(ts)) => Some(
                if t < ts@ {
                    ts@
                } else {
                    t
                },
            ),
        }
    }
}

/// The days since the latest event; the largest `u32` where none is known.
pub open spec fn event_days(events: Option<Vec<Option<Timestamp>>>, now: int) -> u32 {
    match latest(listed(events)) {
        Some(t) => days_between(now, t),
        None => u32::MAX,
    }
}

/// The days since the last activity, by pods or events whichever is later; zero
/// where neither is known, so that a namespace is not taken for abandoned.
pub open spec fn activity_days(from_pods: Option<u32>, from_events: u32) -> u32 {
    let pods = match from_pods {
        Some(n) => n,
        None => u32::MAX,
    };
    let least = if pods < from_events {
        pods
    } else {
        from_events
    };
    if least == u32::MAX {
        0
    } else {
        least
    }
}

/// How a namespace is reported.
pub open spec fn namespace_row(
    e: EventListing,
    totals: Map<Seq<char>, (u32, int, int)>,
    activity: Map<Seq<char>, u32>,
    now: int,
) -> NamespaceModel {
    let (workload_count, billed_from, billed_to) = match looked_up(totals, e.namespace@) {
        Some(t) => t,
        None => (0, 0, 0),
    };
    NamespaceModel {
        name: e.namespace@,
        workload_count,
        days_since_last_activity: activity_days(
            looked_up(activity, e.namespace@),
            event_days(e.events, now),
        ),
        billed_from,
        billed_to,
    }
}

/// How the namespaces are reported, in order.
pub open spec fn namespaces_rows(
    events: Seq<EventListing>,
    totals: Map<Seq<char>, (u32, int, int)>,
    activity: Map<Seq<char>, u32>,
    now: int,
) -> Seq<NamespaceModel> {
    Seq::new(events.len(), |i: int| namespace_row(events[i], totals, activity, now))
}

/// The cloud that the labels of a node point to; empty where they do not.
pub open spec fn provider_by_labels(labels: Map<Seq<char>, Seq<char>>) -> Seq<char> {
    if labels.dom().contains("eks.amazonaws.com/nodegroup"@) || labels.dom().contains(
        "alpha.eksctl.io/cluster-name"@,
    ) {
        "AWS"@
    } else if labels.dom().contains("cloud.google.com/gke-nodepool"@) {
        "GCP"@
    } else if labels.dom().contains("kubernetes.azure.com/agentpool"@) {
        "Azure"@
    } else {
        Seq::empty()
    }
}

/// The cloud provider: what the configuration says, else `from_ids`, which the nodes'
/// provider ids say, else what the labels of the first node point to.
pub open spec fn chosen_provider(
    configured: Option<Seq<char>>,
    from_ids: Seq<char>,
    nodes: Seq<Node>,
) -> Seq<char> {
    match configured {
        Some(p) => p,
        None => if from_ids.len() > 0 {
            from_ids
        } else if nodes.len() > 0 {
            provider_by_labels(labels_of(nodes[0]))
        } else {
            Seq::empty()
        },
    }
}

/// The namespaces to collect: those that are included, if any; else those that are
/// listed and have a name, without the excluded ones.
pub open spec fn targets(
    include_names: Seq<Seq<char>>,
    exclude_names: Seq<Seq<char>>,
    names: Seq<Option<String>>,
) -> Seq<Seq<char>> {
    if include_names.len() > 0 {
        include_names
    } else {
        not_excluded(exclude_names, names)
    }
}

/// The names that are there and not excluded, in order.
pub open spec fn not_excluded(
    exclude_names: Seq<Seq<char>>,
    names: Seq<Option<String>>,
) -> Seq<Seq<char>>
    decreases names.len(),
{
    if names.len() == 0 {
        Seq::empty()
    } else {
        let before = not_excluded(exclude_names, names.drop_last());
        match names.last() {
            Some(name) if !exclude_names.contains(name@) => before.push(name@),
            _ => before,
        }
    }
}

/// `recorded`, with the subsystems that could not be read for a namespace's workloads.
pub open spec fn recorded_for_listing(
    recorded: Set<Seq<char>>,
    l: WorkloadListing,
) -> Set<Seq<char>> {
    let r = recorded_if_failed(recorded, l.hpas, "horizontalpodautoscalers"@);
    let r = recorded_if_failed(r, l.deployments, "deployments"@);
    let r = recorded_if_failed(r, l.stateful_sets, "statefulsets"@);
    let r = recorded_if_failed(r, l.daemon_sets, "daemonsets"@);
    let r = recorded_if_failed(r, l.cron_jobs, "cronjobs"@);
    if listed(l.cron_jobs).len() > 0 {
        recorded_if_failed(r, l.jobs, "jobs"@)
    } else {
        r
    }
}

/// `recorded`, with the subsystems that could not be read for some namespace's workloads.
pub open spec fn recorded_for_workloads(
    recorded: Set<Seq<char>>,
    listings: Seq<WorkloadListing>,
) -> Set<Seq<char>>
    decreases listings.len(),
{
    if listings.len() == 0 {
        recorded
    } else {
        recorded_for_listing(
            recorded_for_workloads(recorded, listings.drop_last()),
            listings.last(),
        )
    }
}

/// `recorded`, with events if they could not be read for some namespace.
pub open spec fn recorded_for_events(
    recorded: Set<Seq<char>>,
    listings: Seq<EventListing>,
) -> Set<Seq<char>>
    decreases listings.len(),
{
    if listings.len() == 0 {
        recorded
    } else {
        recorded_if_failed(
            recorded_for_events(recorded, listings.drop_last()),
            listings.last().events,
            "events"@,
        )
    }
}

/// The subsystems that a pass could not read.
pub open spec fn failed_subsystems(c: ClusterListing) -> Set<Seq<char>> {
    let start = match c.pod_metrics {
        Some(body) => Set::empty(),
        None => Set::empty().insert("metrics-server"@),
    };
    recorded_for_events(
        recorded_for_workloads(recorded_for_pods(start, c.pods@), c.workloads@),
        c.events@,
    )
}

/// The metrics that a pass read; none where the metrics server did not answer.
pub open spec fn metrics_read(c: ClusterListing) -> Map<(Seq<char>, Seq<char>), Seq<MetricModel>> {
    match c.pod_metrics {
        Some(body) => pod_metrics(body),
        None => Map::empty(),
    }
}

/// Whether `usage` gathers the metrics that a pass read, taken pod by pod in some order.
pub open spec fn usage_read(usage: UsageByContainer, c: ClusterListing) -> bool {
    exists|entries: Seq<((String, String), Vec<ContainerMetric>)>|
        keys_distinct(entries) && #[trigger] map_of(entries) == metrics_read(c) && usage
            == usage_by_container(readings(entries, owners_by_pod(sightings(c.pods@))))
}

/// Whether the rows and the namespaces of a snapshot are those of `usage`.
pub open spec fn rows_right(
    s: AgentSnapshot,
    c: ClusterListing,
    now: int,
    usage: UsageByContainer,
) -> bool {
    let health = health_by_workload(sightings(c.pods@));
    let node_count = c.nodes@.len() as u32;
    &&& s.workloads.deep_view() == all_rows(c.workloads@, node_count, now, health, usage)
    &&& s.namespaces.deep_view() == namespaces_rows(
        c.events@,
        totals_by_namespace(c.workloads@, node_count, now, health, usage),
        activity_by_namespace(c.pods@, now),
        now,
    )
}

/// A number of milliseconds, at most the largest `u32`.
pub open spec fn clamped_ms(ms: u128) -> u32 {
    if ms <= u32::MAX {
        ms as u32
    } else {
        u32::MAX
    }
}

/// Whether `s` is the snapshot of what a pass read.
pub open spec fn is_snapshot(
    s: AgentSnapshot,
    c: ClusterListing,
    configured_provider: Option<Seq<char>>,
    now: int,
    collected_at: Seq<char>,
    elapsed_ms: u128,
    agent_version: Seq<char>,
) -> bool {
    &&& s.k8s_version@ == (match c.version {
        Some(v) => match version_text(v) {
            Some(t) => t,
            None => Seq::empty(),
        },
        None => Seq::empty(),
    })
    &&& s.node_count == c.nodes@.len()
    &&& s.cloud_provider@ == chosen_provider(
        configured_provider,
        first_provider(c.nodes@),
        c.nodes@,
    )
    &&& exists|usage: UsageByContainer| usage_read(usage, c) && #[trigger] rows_right(s, c, now, usage)
    &&& s.collected_at@ == collected_at
    &&& primary_region(s.region@, c.nodes@)
    &&& pools_of(s.node_pools@, c.nodes@)
    &&& s.agent_version@ == agent_version
    &&& s.metrics_available == (c.pod_metrics is Some)
    &&& s.collection_duration_ms == clamped_ms(elapsed_ms)
    &&& strictly_sorted(views(s.partial_failures@))
    &&& views(s.partial_failures@).to_set() == failed_subsystems(c)
}

/// The number under `name`, zero where there is none.
spec fn count_under(counts: Map<Seq<char>, u32>, name: Seq<char>) -> u32 {
    match looked_up(counts, name) {
        Some(n) => n,
        None => 0,
    }
}

/// Counts failed Jobs by the name of the CronJob that owns them.
///
/// Only the Jobs that the API server still holds are there, which bounds the count
/// to recent runs. A name without such a Job is no key.
pub fn cronjob_failures(jobs: &Vec<Job>) -> (r: Table<String, u32>)
    ensures
        forall|name: Seq<char>|
            (match #[trigger] looked_up(r.deep_view(), name) {
                Some(n) => n,
                None => 0,
            }) == wrapped(failed_runs(jobs@, name)),
        forall|name: Seq<char>| #[trigger]
            r.deep_view().dom().contains(name) <==> failed_runs(jobs@, name) > 0,
{
    let mut counts: Table<String, u32> = Table::new();
    let mut i: usize = 0;
    while i < jobs.len()
        invariant
            i <= jobs.len(),
            forall|name: Seq<char>| #[trigger]
                count_under(counts.deep_view(), name) == wrapped(
                    failed_runs(jobs@.take(i as int), name),
                ),
            forall|name: Seq<char>| #[trigger]
                counts.deep_view().dom().contains(name) <==> failed_runs(
                    jobs@.take(i as int),
                    name,
                ) > 0,
        decreases jobs.len() - i,
    {
        let job: &Job = &jobs[i];
        let ghost before = jobs@.take(i as int);
        assert(jobs@.take(i + 1).drop_last() == before);
        let failed: bool = match job.failed {
            Some(n) => n > 0,
            None => false,
        };
        if failed {
            let mut j: usize = 0;
            assert(job.owners@.take(0) == Seq::<OwnerReference>::empty());
            while j < job.owners.len()
                invariant
                    j <= job.owners.len(),
                    forall|name: Seq<char>| #[trigger]
                        count_under(counts.deep_view(), name) == wrapped(
                            failed_runs(before, name) + cron_owners(
                                job.owners@.take(j as int),
                                name,
                            ),
                        ),
                    forall|name: Seq<char>| #[trigger]
                        counts.deep_view().dom().contains(name) <==> failed_runs(before, name)
                            + cron_owners(job.owners@.take(j as int), name) > 0,
                decreases job.owners.len() - j,
            {
                let owner: &OwnerReference = &job.owners[j];
                let ghost counted = counts.deep_view();
                assert(job.owners@.take(j + 1).drop_last() == job.owners@.take(j as int));
                if same_text(owner.kind.as_str(), "CronJob") {
                    let n: u32 = match counts.get(&owner.name) {
                        Some(n) => *n,
                        None => 0,
                    };
                    assert(n == count_under(counted, owner.name@));
                    counts.insert(owner.name.clone(), n.wrapping_add(1));
                }
                proof {
                    assert forall|name: Seq<char>| #[trigger]
                        count_under(counts.deep_view(), name) == wrapped(
                            failed_runs(before, name) + cron_owners(job.owners@.take(j + 1), name),
                        ) by {
                        assert(count_under(counted, name) == wrapped(
                            failed_runs(before, name) + cron_owners(
                                job.owners@.take(j as int),
                                name,
                            ),
                        ));
                        lemma_wrapped_add(
                            failed_runs(before, name) + cron_owners(
                                job.owners@.take(j as int),
                                name,
                            ),
                            1,
                        );
                    }
                }
                j += 1;
            }
            assert(job.owners@.take(job.owners@.len() as int) == job.owners@);
        }
        i += 1;
    }
    assert(jobs@.take(jobs@.len() as int) == jobs@);
    proof {
        assert forall|name: Seq<char>|
            (match #[trigger] looked_up(counts.deep_view(), name) {
                Some(n) => n,
                None => 0,
            }) == wrapped(failed_runs(jobs@, name)) by {
            assert(count_under(counts.deep_view(), name) == wrapped(failed_runs(jobs@, name)));
        }
    }
    counts
}

fn age_of(created: &Option<Timestamp>, now: &Timestamp) -> (r: u32)
    ensures
        r == age(*created, now@),
{
    match created {
        Some(ts) => whole_days_between(now, ts),
        None => 0,
    }
}

fn name_of(name: &Option<String>) -> (r: String)
    ensures
        r@ == name_or_empty(*name),
{
    match name {
        Some(n) => n.clone(),
        None => String::new(),
    }
}

fn count_replicas(replicas: Option<i32>) -> (r: u32)
    ensures
        r == replica_count(replicas),
{
    match replicas {
        Some(n) => if n >= 0 {
            n as u32
        } else {
            (n as i64 + 0x1_0000_0000) as u32
        },
        None => 1,
    }
}

/// Adds the rows of a list of workloads.
fn add_workloads(
    out: &mut Vec<WorkloadMetrics>,
    namespace: &String,
    kind: &str,
    items: &Vec<Workload>,
    fixed: Option<u32>,
    now: &Timestamp,
    scaling: &AutoscalerMap,
    health: &HealthMap,
    usage: &UsageMap,
)
    ensures
        final(out).deep_view() == old(out).deep_view() + rows_of_workloads(
            namespace@,
            kind@,
            items@,
            fixed,
            now@,
            scaling.deep_view(),
            health.deep_view(),
            usage.deep_view(),
        ),
{
    let ghost start = out.deep_view();
    let ghost sc = scaling.deep_view();
    let ghost he = health.deep_view();
    let ghost us = usage.deep_view();
    let mut i: usize = 0;
    assert(start + Seq::<WorkloadModel>::empty() == start);
    while i < items.len()
        invariant
            i <= items.len(),
            sc == scaling.deep_view(),
            he == health.deep_view(),
            us == usage.deep_view(),
            out.deep_view() == start + rows_of_workloads(
                namespace@,
                kind@,
                items@.take(i as int),
                fixed,
                now@,
                sc,
                he,
                us,
            ),
        decreases items.len() - i,
    {
        let w: &Workload = &items[i];
        let ghost before = out.deep_view();
        let ghost rows = rows_of_workload(namespace@, kind@, *w, fixed, now@, sc, he, us);
        assert(items@.take(i + 1).drop_last() == items@.take(i as int));
        let name: String = name_of(&w.name);
        let days: u32 = age_of(&w.created, now);
        let replicas: u32 = match fixed {
            Some(n) => n,
            None => count_replicas(w.replicas),
        };
        let ctx = scaling.get(&(kind.to_owned(), name.clone()));
        let guard = health.get(&(namespace.clone(), kind.to_owned(), name.clone()));
        let mut j: usize = 0;
        assert(before + rows.take(0) == before);
        while j < w.containers.len()
            invariant
                j <= w.containers.len(),
                us == usage.deep_view(),
                rows == rows_of_workload(namespace@, kind@, *w, fixed, now@, sc, he, us),
                name@ == name_or_empty(w.name),
                days == age(w.created, now@),
                replicas == replicas_of(*w, fixed),
                match ctx {
                    Some(c) => looked_up(sc, (kind@, name@)) == Some(c.deep_view()),
                    None => looked_up(sc, (kind@, name@)) is None,
                },
                match guard {
                    Some(h) => looked_up(he, (namespace@, kind@, name@)) == Some(h.deep_view()),
                    None => looked_up(he, (namespace@, kind@, name@)) is None,
                },
                out.deep_view() == before + rows.take(j as int),
            decreases w.containers.len() - j,
        {
            let c: &Container = &w.containers[j];
            let key = (namespace.clone(), kind.to_owned(), name.clone(), c.name.clone());
            let reported = usage.get(&key);
            let mut wl = build_workload_metrics(
                namespace.as_str(),
                kind,
                name.as_str(),
                c.name.as_str(),
                replicas,
                days,
                &c.resources,
                reported,
            );
            apply_autoscaler_context(&mut wl, ctx);
            apply_workload_health(&mut wl, guard);
            let ghost so_far = out.deep_view();
            out.push(wl);
            proof {
                assert(wl.deep_view() == rows[j as int]);
                assert(out.deep_view() =~= so_far.push(rows[j as int]));
                assert(rows.take(j + 1) == rows.take(j as int).push(rows[j as int]));
                assert(out.deep_view() =~= before + rows.take(j + 1));
            }
            j += 1;
        }
        proof {
            assert(rows.take(rows.len() as int) == rows);
            assert(out.deep_view() =~= start + rows_of_workloads(
                namespace@,
                kind@,
                items@.take(i + 1),
                fixed,
                now@,
                sc,
                he,
                us,
            ));
        }
        i += 1;
    }
    assert(items@.take(items@.len() as int) == items@);
}

/// Adds the rows of a list of CronJobs.
fn add_cron_jobs(
    out: &mut Vec<WorkloadMetrics>,
    namespace: &String,
    items: &Vec<CronJob>,
    now: &Timestamp,
    failures: &Table<String, u32>,
    Ghost(jobs): Ghost<Seq<Job>>,
)
    requires
        forall|name: Seq<char>|
            (match #[trigger] looked_up(failures.deep_view(), name) {
                Some(n) => n,
                None => 0,
            }) == wrapped(failed_runs(jobs, name)),
    ensures
        final(out).deep_view() == old(out).deep_view() + rows_of_cron_jobs(
            namespace@,
            items@,
            now@,
            jobs,
        ),
{
    let ghost start = out.deep_view();
    let mut i: usize = 0;
    assert(start + Seq::<WorkloadModel>::empty() == start);
    while i < items.len()
        invariant
            i <= items.len(),
            forall|name: Seq<char>|
                (match #[trigger] looked_up(failures.deep_view(), name) {
                    Some(n) => n,
                    None => 0,
                }) == wrapped(failed_runs(jobs, name)),
            out.deep_view() == start + rows_of_cron_jobs(
                namespace@,
                items@.take(i as int),
                now@,
                jobs,
            ),
        decreases items.len() - i,
    {
        let cj: &CronJob = &items[i];
        let ghost before = out.deep_view();
        let ghost rows = rows_of_cron_job(namespace@, *cj, now@, jobs);
        assert(items@.take(i + 1).drop_last() == items@.take(i as int));
        let name: String = name_of(&cj.name);
        let days: u32 = age_of(&cj.created, now);
        let suspended: bool = match cj.suspend {
            Some(b) => b,
            None => false,
        };
        let last_schedule: String = match &cj.last_schedule {
            Some(ts) => format_rfc3339(ts),
            None => String::new(),
        };
        let recent: u32 = match failures.get(&name) {
            Some(n) => *n,
            None => 0,
        };
        proof {
            assert(name.deep_view() == name@);
            assert((match looked_up(failures.deep_view(), name@) {
                Some(n) => n,
                None => 0,
            }) == wrapped(failed_runs(jobs, name@)));
            assert(last_schedule@ =~= schedule_text(cj.last_schedule));
        }
        let mut j: usize = 0;
        assert(before + rows.take(0) == before);
        while j < cj.containers.len()
            invariant
                j <= cj.containers.len(),
                rows == rows_of_cron_job(namespace@, *cj, now@, jobs),
                name@ == name_or_empty(cj.name),
                days == age(cj.created, now@),
                suspended == (cj.suspend == Some(true)),
                last_schedule@ == schedule_text(cj.last_schedule),
                recent == wrapped(failed_runs(jobs, name@)),
                out.deep_view() == before + rows.take(j as int),
            decreases cj.containers.len() - j,
        {
            let c: &Container = &cj.containers[j];
            let mut wl = build_workload_metrics(
                namespace.as_str(),
                "CronJob",
                name.as_str(),
                c.name.as_str(),
                1,
                days,
                &c.resources,
                None,
            );
            wl.cronjob_suspended = suspended;
            wl.cronjob_last_schedule_ts = last_schedule.clone();
            wl.cronjob_recent_failures = recent;
            let ghost so_far = out.deep_view();
            out.push(wl);
            proof {
                assert(wl.deep_view() == rows[j as int]);
                assert(out.deep_view() =~= so_far.push(rows[j as int]));
                assert(rows.take(j + 1) == rows.take(j as int).push(rows[j as int]));
                assert(out.deep_view() =~= before + rows.take(j + 1));
            }
            j += 1;
        }
        proof {
            assert(rows.take(rows.len() as int) == rows);
            assert(out.deep_view() =~= start + rows_of_cron_jobs(
                namespace@,
                items@.take(i + 1),
                now@,
                jobs,
            ));
        }
        i += 1;
    }
    assert(items@.take(items@.len() as int) == items@);
}

/// Adds the rows of a list of workloads if it could be read, and records
/// `subsystem` if not. Returns the number of workloads.
fn add_listed(
    out: &mut Vec<WorkloadMetrics>,
    namespace: &String,
    kind: &str,
    list: &Option<Vec<Workload>>,
    subsystem: &str,
    fixed: Option<u32>,
    now: &Timestamp,
    scaling: &AutoscalerMap,
    health: &HealthMap,
    usage: &UsageMap,
    degraded: &mut Degradations,
) -> (r: usize)
    ensures
        final(out).deep_view() == old(out).deep_view() + rows_of_workloads(
            namespace@,
            kind@,
            listed(*list),
            fixed,
            now@,
            scaling.deep_view(),
            health.deep_view(),
            usage.deep_view(),
        ),
        final(degraded)@ == recorded_if_failed(old(degraded)@, *list, subsystem@),
        r == listed(*list).len(),
{
    match list {
        Some(items) => {
            add_workloads(out, namespace, kind, items, fixed, now, scaling, health, usage);
            items.len()
        },
        None => {
            degraded.record(subsystem);
            assert(out.deep_view() + Seq::<WorkloadModel>::empty() =~= out.deep_view());
            0
        },
    }
}

/// Adds the rows of the CronJobs if they could be read, and records what could not.
/// Returns the number of CronJobs.
fn add_listed_cron_jobs(
    out: &mut Vec<WorkloadMetrics>,
    namespace: &String,
    list: &Option<Vec<CronJob>>,
    jobs: &Option<Vec<Job>>,
    now: &Timestamp,
    degraded: &mut Degradations,
) -> (r: usize)
    ensures
        final(out).deep_view() == old(out).deep_view() + rows_of_cron_jobs(
            namespace@,
            listed(*list),
            now@,
            listed(*jobs),
        ),
        final(degraded)@ == if listed(*list).len() > 0 {
            recorded_if_failed(
                recorded_if_failed(old(degraded)@, *list, "cronjobs"@),
                *jobs,
                "jobs"@,
            )
        } else {
            recorded_if_failed(old(degraded)@, *list, "cronjobs"@)
        },
        r == listed(*list).len(),
{
    match list {
        Some(items) => {
            if lists_jobs(list) {
                match jobs {
                    Some(runs) => {
                        let failures = cronjob_failures(runs);
                        add_cron_jobs(out, namespace, items, now, &failures, Ghost(runs@));
                    },
                    None => {
                        degraded.record("jobs");
                        let failures: Table<String, u32> = Table::new();
                        add_cron_jobs(
                            out,
                            namespace,
                            items,
                            now,
                            &failures,
                            Ghost(Seq::<Job>::empty()),
                        );
                    },
                }
            } else {
                assert(out.deep_view() + Seq::<WorkloadModel>::empty() =~= out.deep_view());
            }
            items.len()
        },
        None => {
            degraded.record("cronjobs");
            assert(out.deep_view() + Seq::<WorkloadModel>::empty() =~= out.deep_view());
            0
        },
    }
}

/// Adds the rows of a namespace. Returns its totals.
///
/// The requests of CronJobs are kept out of the billed rows: billing one for the
/// whole month would inflate the cost of its namespace.
pub fn add_namespace(
    out: &mut Vec<WorkloadMetrics>,
    l: &WorkloadListing,
    node_count: u32,
    now: &Timestamp,
    health: &HealthMap,
    usage: &UsageMap,
    degraded: &mut Degradations,
) -> (r: NamespaceTotals)
    ensures
        final(out).deep_view() == old(out).deep_view() + namespace_rows(
            *l,
            node_count,
            now@,
            health.deep_view(),
            usage.deep_view(),
        ),
        r.workload_count == wrapped(workloads_in(*l)),
        r.billed_from == old(out)@.len(),
        r.billed_to == old(out)@.len() + billed_rows(
            *l,
            node_count,
            now@,
            health.deep_view(),
            usage.deep_view(),
        ).len(),
        final(degraded)@ == recorded_for_listing(old(degraded)@, *l),
{
    let ghost start = out.deep_view();
    let billed_from: usize = out.len();
    let scaling: AutoscalerMap = autoscaler_map(&l.hpas, &l.scaled_objects, degraded);
    let unscaled: AutoscalerMap = Table::new();
    let deployments: usize = add_listed(
        out,
        &l.namespace,
        "Deployment",
        &l.deployments,
        "deployments",
        None,
        now,
        &scaling,
        health,
        usage,
        degraded,
    );
    let stateful_sets: usize = add_listed(
        out,
        &l.namespace,
        "StatefulSet",
        &l.stateful_sets,
        "statefulsets",
        None,
        now,
        &scaling,
        health,
        usage,
        degraded,
    );
    let daemon_sets: usize = add_listed(
        out,
        &l.namespace,
        "DaemonSet",
        &l.daemon_sets,
        "daemonsets",
        Some(node_count),
        now,
        &unscaled,
        health,
        usage,
        degraded,
    );
    let billed_to: usize = out.len();
    proof {
        assert(out.deep_view() =~= start + billed_rows(
            *l,
            node_count,
            now@,
            health.deep_view(),
            usage.deep_view(),
        ));
        assert(out.deep_view().len() == out@.len());
    }
    let cron_jobs: usize = add_listed_cron_jobs(
        out,
        &l.namespace,
        &l.cron_jobs,
        &l.jobs,
        now,
        degraded,
    );
    assert(out.deep_view() =~= start + namespace_rows(
        *l,
        node_count,
        now@,
        health.deep_view(),
        usage.deep_view(),
    ));
    let count: u128 = deployments as u128 + stateful_sets as u128 + daemon_sets as u128
        + cron_jobs as u128;
    NamespaceTotals { workload_count: (count % 0x1_0000_0000) as u32, billed_from, billed_to }
}

/// The days since the latest event, or the largest `u32` where none is known.
pub fn last_event_days(events: &Option<Vec<Option<Timestamp>>>, now: &Timestamp) -> (r: u32)
    ensures
        r == event_days(*events, now@),
{
    match events {
        Some(items) => {
            let mut found: Option<Timestamp> = None;
            let mut i: usize = 0;
            while i < items.len()
                invariant
                    i <= items.len(),
                    latest(items@.take(i as int)) == match found {
                        Some(ts) => Some(ts@),
                        None => None,
                    },
                decreases items.len() - i,
            {
                assert(items@.take(i + 1).drop_last() == items@.take(i as int));
                match items[i] {
                    Some(ts) => {
                        found = match found {
                            Some(t) => if t.as_nanosecond() < ts.as_nanosecond() {
                                Some(ts)
                            } else {
                                Some(t)
                            },
                            None => Some(ts),
                        };
                    },
                    None => {},
                }
                i += 1;
            }
            assert(items@.take(items@.len() as int) == items@);
            match found {
                Some(ts) => whole_days_between(now, &ts),
                None => u32::MAX,
            }
        },
        None => u32::MAX,
    }
}

/// Reports a namespace, combining pod activity and event activity.
fn report_namespace(
    e: &EventListing,
    totals: &Table<String, NamespaceTotals>,
    activity: &ActivityMap,
    now: &Timestamp,
) -> (r: NamespaceMetrics)
    ensures
        r.deep_view() == namespace_row(*e, totals.deep_view(), activity.deep_view(), now@),
{
    let (workload_count, billed_from, billed_to): (u32, usize, usize) = match totals.get(
        &e.namespace,
    ) {
        Some(t) => (t.workload_count, t.billed_from, t.billed_to),
        None => (0, 0, 0),
    };
    let from_pods: u32 = match activity.get(&e.namespace) {
        Some(n) => *n,
        None => u32::MAX,
    };
    let from_events: u32 = last_event_days(&e.events, now);
    let least: u32 = if from_pods < from_events {
        from_pods
    } else {
        from_events
    };
    NamespaceMetrics {
        name: e.namespace.clone(),
        workload_count,
        days_since_last_activity: if least == u32::MAX {
            0
        } else {
            least
        },
        billed_from,
        billed_to,
    }
}

/// The cloud provider: what the configuration says, else what the nodes' provider
/// ids say, else what the labels of the first node point to.
pub fn choose_cloud_provider(
    configured: &Option<String>,
    provider_from_nodes: &String,
    nodes: &Vec<Node>,
) -> (r: String)
    ensures
        r@ == chosen_provider(configured.deep_view(), provider_from_nodes@, nodes@),
{
    match configured {
        Some(p) => {
            return p.clone();
        },
        None => {},
    }
    if !provider_from_nodes.as_str().is_empty() {
        return provider_from_nodes.clone();
    }
    if nodes.len() == 0 {
        return String::new();
    }
    match &nodes[0].labels {
        Some(labels) => {
            if look_up(labels, "eks.amazonaws.com/nodegroup").is_some() || look_up(
                labels,
                "alpha.eksctl.io/cluster-name",
            ).is_some() {
                "AWS".to_owned()
            } else if look_up(labels, "cloud.google.com/gke-nodepool").is_some() {
                "GCP".to_owned()
            } else if look_up(labels, "kubernetes.azure.com/agentpool").is_some() {
                "Azure".to_owned()
            } else {
                String::new()
            }
        },
        None => String::new(),
    }
}

fn is_among(names: &Vec<String>, name: &String) -> (r: bool)
    ensures
        r == views(names@).contains(name@),
{
    let mut i: usize = 0;
    while i < names.len()
        invariant
            i <= names.len(),
            forall|k: int| 0 <= k < i ==> (#[trigger] names@[k])@ != name@,
        decreases names.len() - i,
    {
        if names[i] == *name {
            assert(views(names@)[i as int] == name@);
            return true;
        }
        i += 1;
    }
    proof {
        if views(names@).contains(name@) {
            let k = choose|k: int| 0 <= k < views(names@).len() && views(names@)[k] == name@;
            assert(names@[k]@ == name@);
        }
    }
    false
}

/// The namespaces to collect, from the configuration and the names that were listed.
///
/// Nothing needs to be listed where the configuration names namespaces to include.
pub fn target_namespaces(config: &Config, listed_names: &Vec<Option<String>>) -> (r: Vec<String>)
    ensures
        views(r@) == targets(
            views(config.include_namespaces@),
            views(config.exclude_namespaces@),
            listed_names@,
        ),
        config.include_namespaces@.len() == 0 ==> forall|t: int, e: int|
            0 <= t < r@.len() && 0 <= e < config.exclude_namespaces@.len() ==> (
            #[trigger] r@[t])@ != (#[trigger] config.exclude_namespaces@[e])@,
        config.include_namespaces@.len() == 0 ==> forall|i: int|
            0 <= i < listed_names@.len() ==> ((#[trigger] listed_names@[i]) matches Some(name)
                ==> ((forall|e: int|
                0 <= e < config.exclude_namespaces@.len() ==> (
                #[trigger] config.exclude_namespaces@[e])@ != name@) ==> exists|t: int|
                0 <= t < r@.len() && (#[trigger] r@[t])@ == name@)),
{
    let mut out: Vec<String> = Vec::new();
    let mut i: usize = 0;
    if config.include_namespaces.len() > 0 {
        while i < config.include_namespaces.len()
            invariant
                i <= config.include_namespaces.len(),
                out@.len() == i,
                forall|k: int| 0 <= k < i ==> #[trigger] out@[k] == config.include_namespaces@[k],
            decreases config.include_namespaces.len() - i,
        {
            out.push(config.include_namespaces[i].clone());
            i += 1;
        }
        assert(views(out@) =~= views(config.include_namespaces@));
        return out;
    }
    let ghost excluded = views(config.exclude_namespaces@);
    assert(views(out@) == Seq::<Seq<char>>::empty());
    while i < listed_names.len()
        invariant
            i <= listed_names.len(),
            excluded == views(config.exclude_namespaces@),
            views(out@) == not_excluded(excluded, listed_names@.take(i as int)),
        decreases listed_names.len() - i,
    {
        assert(listed_names@.take(i + 1).drop_last() == listed_names@.take(i as int));
        let ghost before = views(out@);
        match &listed_names[i] {
            Some(name) => {
                if !is_among(&config.exclude_namespaces, name) {
                    out.push(name.clone());
                    assert(views(out@) == before.push(name@));
                }
            },
            None => {},
        }
        i += 1;
    }
    assert(listed_names@.take(listed_names@.len() as int) == listed_names@);
    proof {
        let kept = views(out@);
        assert(views(config.include_namespaces@) == Seq::<Seq<char>>::empty());
        law_excluded_namespaces_are_no_targets(excluded, listed_names@);
        assert forall|t: int, e: int|
            0 <= t < out@.len() && 0 <= e < config.exclude_namespaces@.len() implies (
        #[trigger] out@[t])@ != (#[trigger] config.exclude_namespaces@[e])@ by {
            assert(kept[t] == out@[t]@);
            assert(excluded[e] == config.exclude_namespaces@[e]@);
        }
        assert forall|i: int| 0 <= i < listed_names@.len() implies ((
        #[trigger] listed_names@[i]) matches Some(name) ==> ((forall|e: int|
            0 <= e < config.exclude_namespaces@.len() ==> (
            #[trigger] config.exclude_namespaces@[e])@ != name@) ==> exists|t: int|
            0 <= t < out@.len() && (#[trigger] out@[t])@ == name@)) by {
            match listed_names@[i] {
                Some(name) => {
                    if forall|e: int|
                        0 <= e < config.exclude_namespaces@.len() ==> (
                        #[trigger] config.exclude_namespaces@[e])@ != name@ {
                        assert forall|e: int| 0 <= e < excluded.len() implies #[trigger] excluded[e]
                            != name@ by {
                            assert(config.exclude_namespaces@[e]@ != name@);
                        }
                        assert(kept.contains(name@));
                        let t = choose|t: int| 0 <= t < kept.len() && kept[t] == name@;
                        assert(out@[t]@ == name@);
                    }
                },
                None => {},
            }
        }
    }
    out
}

/// Whether namespaces need to be listed: where the configuration names none to include.
pub fn lists_namespaces(config: &Config) -> (r: bool)
    ensures
        r == (config.include_namespaces@.len() == 0),
{
    config.include_namespaces.len() == 0
}

/// Whether the Jobs of a namespace need to be listed: where there are CronJobs that
/// may own them.
pub fn lists_jobs(cron_jobs: &Option<Vec<CronJob>>) -> (r: bool)
    ensures
        r == (listed(*cron_jobs).len() > 0),
{
    match cron_jobs {
        Some(items) => items.len() > 0,
        None => false,
    }
}

/// Puts the snapshot of a cluster together from what a pass read of it at `now`.
///
/// A list call that failed is recorded under its subsystem and its data taken as
/// absent, so that the rest of the pass still counts.
pub fn assemble(
    c: &ClusterListing,
    configured_provider: &Option<String>,
    now: &Timestamp,
    collected_at: String,
    elapsed_ms: u128,
    agent_version: &str,
) -> (r: AgentSnapshot)
    requires
        c.nodes@.len() <= u32::MAX,
    ensures
        is_snapshot(
            r,
            *c,
            configured_provider.deep_view(),
            now@,
            collected_at@,
            elapsed_ms,
            agent_version@,
        ),
{
    let mut degraded = Degradations::default();
    let version: Option<String> = match &c.version {
        Some(v) => parse_k8s_version(v),
        None => None,
    };
    let k8s_version: String = match version {
        Some(v) => v,
        None => String::new(),
    };
    let node_count: u32 = c.nodes.len() as u32;
    let (node_pools, region, provider_from_nodes) = aggregate_node_pools(c.nodes.as_slice());
    let cloud_provider: String = choose_cloud_provider(
        configured_provider,
        &provider_from_nodes,
        &c.nodes,
    );
    let metrics: PodMetrics = match &c.pod_metrics {
        Some(body) => parse_pod_metrics_json(body),
        None => {
            degraded.record("metrics-server");
            Table::new()
        },
    };
    metrics.keys_are_distinct();
    let metrics_available: bool = c.pod_metrics.is_some();
    let ghost start = degraded@;
    let (owners, activity, health) = build_pod_owner_map(&c.pods, now, &mut degraded);
    let usage: UsageMap = aggregate_workload_usage(&metrics, &owners);
    let ghost he = health.deep_view();
    let ghost us = usage.deep_view();
    let ghost after_pods = degraded@;
    proof {
        assert(keys_distinct(metrics.list()) && map_of(metrics.list()) == metrics_read(*c));
        assert(usage_read(us, *c));
    }
    let mut workloads: Vec<WorkloadMetrics> = Vec::new();
    let mut totals: Table<String, NamespaceTotals> = Table::new();
    let mut i: usize = 0;
    assert(workloads.deep_view() =~= Seq::<WorkloadModel>::empty());
    while i < c.workloads.len()
        invariant
            i <= c.workloads.len(),
            he == health.deep_view(),
            us == usage.deep_view(),
            workloads.deep_view() == all_rows(c.workloads@.take(i as int), node_count, now@, he, us),
            totals.deep_view() == totals_by_namespace(
                c.workloads@.take(i as int),
                node_count,
                now@,
                he,
                us,
            ),
            degraded@ == recorded_for_workloads(after_pods, c.workloads@.take(i as int)),
        decreases c.workloads.len() - i,
    {
        let l: &WorkloadListing = &c.workloads[i];
        assert(c.workloads@.take(i + 1).drop_last() == c.workloads@.take(i as int));
        assert(workloads.deep_view().len() == workloads@.len());
        let t = add_namespace(
            &mut workloads,
            l,
            node_count,
            now,
            &health,
            &usage,
            &mut degraded,
        );
        totals.insert(l.namespace.clone(), t);
        i += 1;
    }
    assert(c.workloads@.take(c.workloads@.len() as int) == c.workloads@);
    let ghost after_workloads = degraded@;
    let ghost tot = totals.deep_view();
    let ghost act = activity.deep_view();
    let mut namespaces: Vec<NamespaceMetrics> = Vec::new();
    let mut j: usize = 0;
    while j < c.events.len()
        invariant
            j <= c.events.len(),
            tot == totals.deep_view(),
            act == activity.deep_view(),
            namespaces@.len() == j,
            forall|k: int|
                0 <= k < j ==> (#[trigger] namespaces@[k]).deep_view() == namespace_row(
                    c.events@[k],
                    tot,
                    act,
                    now@,
                ),
            degraded@ == recorded_for_events(after_workloads, c.events@.take(j as int)),
        decreases c.events.len() - j,
    {
        let e: &EventListing = &c.events[j];
        assert(c.events@.take(j + 1).drop_last() == c.events@.take(j as int));
        if e.events.is_none() {
            degraded.record("events");
        }
        namespaces.push(report_namespace(e, &totals, &activity, now));
        j += 1;
    }
    assert(c.events@.take(c.events@.len() as int) == c.events@);
    assert(namespaces.deep_view() =~= namespaces_rows(c.events@, tot, act, now@));
    let collection_duration_ms: u32 = if elapsed_ms <= u32::MAX as u128 {
        elapsed_ms as u32
    } else {
        u32::MAX
    };
    let snapshot = AgentSnapshot {
        k8s_version,
        node_count,
        cloud_provider,
        workloads,
        namespaces,
        collected_at,
        region,
        node_pools,
        agent_version: agent_version.to_owned(),
        metrics_available,
        collection_duration_ms,
        partial_failures: degraded.into_vec(),
    };
    assert(rows_right(snapshot, *c, now@, us));
    snapshot
}

/// Calls `chrono::Utc::now` and `to_rfc3339` on the result, which writes the system
/// time with the offset of UTC as hours and minutes. (`now` panics where the system
/// clock is before the epoch.)
#[verifier::external_body]
fn utc_now_rfc3339() -> (r: String)
    ensures
        ends_with(r@, "+00:00"@),
{
    chrono::Utc::now().to_rfc3339()
}

/// Puts the snapshot of a cluster together from what a pass read of it just now.
pub fn collect(
    config: &Config,
    c: &ClusterListing,
    elapsed_ms: u128,
    agent_version: &str,
) -> (r: AgentSnapshot)
    requires
        c.nodes@.len() <= u32::MAX,
    ensures
        exists|now: int, collected_at: Seq<char>|
            in_time_range(now) && ends_with(collected_at, "+00:00"@) && #[trigger] is_snapshot(
                r,
                *c,
                config.cloud_provider.deep_view(),
                now,
                collected_at,
                elapsed_ms,
                agent_version@,
            ),
        forall|names: Seq<Seq<char>>| #[trigger] lists(*c, names) ==> reported_names(r) == names,
{
    let now = Timestamp::now();
    let collected_at = utc_now_rfc3339();
    let ghost stamp = collected_at@;
    let r = assemble(c, &config.cloud_provider, &now, collected_at, elapsed_ms, agent_version);
    proof {
        assert forall|names: Seq<Seq<char>>| #[trigger] lists(*c, names) implies reported_names(r)
            == names by {
            law_snapshot_reports_the_targets(
                r,
                *c,
                names,
                config.cloud_provider.deep_view(),
                now@,
                stamp,
                elapsed_ms,
                agent_version@,
            );
        }
    }
    r
}

proof fn lemma_kind_kept(
    namespace: Seq<char>,
    kind: Seq<char>,
    items: Seq<Workload>,
    fixed: Option<u32>,
    now: int,
    scaling: ScalingByWorkload,
    health: HealthByWorkload,
    usage: UsageByContainer,
    i: int,
)
    requires
        0 <= i < rows_of_workloads(
            namespace,
            kind,
            items,
            fixed,
            now,
            scaling,
            health,
            usage,
        ).len(),
    ensures
        rows_of_workloads(
            namespace,
            kind,
            items,
            fixed,
            now,
            scaling,
            health,
            usage,
        )[i].workload_type == kind,
        rows_of_workloads(
            namespace,
            kind,
            items,
            fixed,
            now,
            scaling,
            health,
            usage,
        )[i].namespace == namespace,
    decreases items.len(),
{
    let before = rows_of_workloads(
        namespace,
        kind,
        items.drop_last(),
        fixed,
        now,
        scaling,
        health,
        usage,
    );
    if i < before.len() {
        lemma_kind_kept(
            namespace,
            kind,
            items.drop_last(),
            fixed,
            now,
            scaling,
            health,
            usage,
            i,
        );
    }
}

proof fn lemma_cron_kind_kept(
    namespace: Seq<char>,
    items: Seq<CronJob>,
    now: int,
    jobs: Seq<Job>,
    i: int,
)
    requires
        0 <= i < rows_of_cron_jobs(namespace, items, now, jobs).len(),
    ensures
        rows_of_cron_jobs(namespace, items, now, jobs)[i].workload_type == "CronJob"@,
        rows_of_cron_jobs(namespace, items, now, jobs)[i].namespace == namespace,
    decreases items.len(),
{
    let before = rows_of_cron_jobs(namespace, items.drop_last(), now, jobs);
    if i < before.len() {
        lemma_cron_kind_kept(namespace, items.drop_last(), now, jobs, i);
    }
}

/// The rows of a namespace all carry its name; those that its cost is made of are
/// exactly those that are not of CronJobs.
pub proof fn law_namespace_cost_leaves_out_cron_jobs(
    l: WorkloadListing,
    node_count: u32,
    now: int,
    health: HealthByWorkload,
    usage: UsageByContainer,
    i: int,
)
    requires
        0 <= i < namespace_rows(l, node_count, now, health, usage).len(),
    ensures
        namespace_rows(l, node_count, now, health, usage)[i].namespace == l.namespace@,
        billed(namespace_rows(l, node_count, now, health, usage)[i]) <==> i < billed_rows(
            l,
            node_count,
            now,
            health,
            usage,
        ).len(),
{
    reveal_strlit("Deployment");
    reveal_strlit("StatefulSet");
    reveal_strlit("DaemonSet");
    reveal_strlit("CronJob");
    assert("Deployment"@.len() == 10 && "StatefulSet"@.len() == 11 && "DaemonSet"@.len() == 9
        && "CronJob"@.len() == 7);
    let scaling = contexts(listed(l.hpas), listed(l.scaled_objects));
    let none = Map::<(Seq<char>, Seq<char>), AutoscalerModel>::empty();
    let d = rows_of_workloads(
        l.namespace@,
        "Deployment"@,
        listed(l.deployments),
        None,
        now,
        scaling,
        health,
        usage,
    );
    let s = rows_of_workloads(
        l.namespace@,
        "StatefulSet"@,
        listed(l.stateful_sets),
        None,
        now,
        scaling,
        health,
        usage,
    );
    let m = rows_of_workloads(
        l.namespace@,
        "DaemonSet"@,
        listed(l.daemon_sets),
        Some(node_count),
        now,
        none,
        health,
        usage,
    );
    let rows = namespace_rows(l, node_count, now, health, usage);
    if i < d.len() {
        lemma_kind_kept(
            l.namespace@,
            "Deployment"@,
            listed(l.deployments),
            None,
            now,
            scaling,
            health,
            usage,
            i,
        );
        assert(rows[i] == d[i]);
    } else if i < d.len() + s.len() {
        lemma_kind_kept(
            l.namespace@,
            "StatefulSet"@,
            listed(l.stateful_sets),
            None,
            now,
            scaling,
            health,
            usage,
            i - d.len(),
        );
        assert(rows[i] == s[i - d.len()]);
    } else if i < d.len() + s.len() + m.len() {
        lemma_kind_kept(
            l.namespace@,
            "DaemonSet"@,
            listed(l.daemon_sets),
            Some(node_count),
            now,
            none,
            health,
            usage,
            i - d.len() - s.len(),
        );
        assert(rows[i] == m[i - d.len() - s.len()]);
    } else {
        let k = i - d.len() - s.len() - m.len();
        lemma_cron_kind_kept(l.namespace@, listed(l.cron_jobs), now, listed(l.jobs), k);
        assert(rows[i] == rows_of_cron_jobs(
            l.namespace@,
            listed(l.cron_jobs),
            now,
            listed(l.jobs),
        )[k]);
    }
}

/// Whether no two listings are of one namespace.
pub open spec fn namespaces_distinct(listings: Seq<WorkloadListing>) -> bool {
    forall|a: int, b: int|
        0 <= a < b < listings.len() ==> (#[trigger] listings[a]).namespace@ != (
        #[trigger] listings[b]).namespace@
}

/// The row at `k` is of one of the namespaces that were listed.
proof fn lemma_row_of_some_namespace(
    listings: Seq<WorkloadListing>,
    node_count: u32,
    now: int,
    health: HealthByWorkload,
    usage: UsageByContainer,
    k: int,
) -> (j: int)
    requires
        0 <= k < all_rows(listings, node_count, now, health, usage).len(),
    ensures
        0 <= j < listings.len(),
        all_rows(listings, node_count, now, health, usage)[k].namespace == listings[j].namespace@,
    decreases listings.len(),
{
    let before = all_rows(listings.drop_last(), node_count, now, health, usage);
    if k < before.len() {
        lemma_row_of_some_namespace(listings.drop_last(), node_count, now, health, usage, k)
    } else {
        law_namespace_cost_leaves_out_cron_jobs(
            listings.last(),
            node_count,
            now,
            health,
            usage,
            k - before.len(),
        );
        listings.len() - 1
    }
}

/// Every listed namespace has totals, and its billed rows are among the rows.
proof fn lemma_billed_within(
    listings: Seq<WorkloadListing>,
    node_count: u32,
    now: int,
    health: HealthByWorkload,
    usage: UsageByContainer,
    name: Seq<char>,
)
    requires
        exists|i: int| 0 <= i < listings.len() && (#[trigger] listings[i]).namespace@ == name,
    ensures
        totals_by_namespace(listings, node_count, now, health, usage).dom().contains(name),
        ({
            let (count, from, to) = totals_by_namespace(
                listings,
                node_count,
                now,
                health,
                usage,
            )[name];
            0 <= from <= to <= all_rows(listings, node_count, now, health, usage).len()
        }),
    decreases listings.len(),
{
    let i = choose|i: int| 0 <= i < listings.len() && (#[trigger] listings[i]).namespace@ == name;
    if listings.last().namespace@ != name {
        assert(listings.drop_last()[i] == listings[i]);
        lemma_billed_within(listings.drop_last(), node_count, now, health, usage, name);
    }
}

/// What a namespace is billed for is exactly its own rows without those of CronJobs:
/// a row of the snapshot is among the billed rows of a namespace if and only if it
/// carries its name and is not of a CronJob.
pub proof fn law_namespaces_are_billed_their_own_rows(
    listings: Seq<WorkloadListing>,
    node_count: u32,
    now: int,
    health: HealthByWorkload,
    usage: UsageByContainer,
    i: int,
    k: int,
)
    requires
        namespaces_distinct(listings),
        0 <= i < listings.len(),
        0 <= k < all_rows(listings, node_count, now, health, usage).len(),
    ensures
        totals_by_namespace(listings, node_count, now, health, usage).dom().contains(
            listings[i].namespace@,
        ),
        ({
            let row = all_rows(listings, node_count, now, health, usage)[k];
            let (count, from, to) = totals_by_namespace(
                listings,
                node_count,
                now,
                health,
                usage,
            )[listings[i].namespace@];
            from <= k < to <==> row.namespace == listings[i].namespace@ && billed(row)
        }),
    decreases listings.len(),
{
    let init = listings.drop_last();
    let name = listings[i].namespace@;
    let before = all_rows(init, node_count, now, health, usage);
    assert forall|a: int, b: int| 0 <= a < b < init.len() implies (
    #[trigger] init[a]).namespace@ != (#[trigger] init[b]).namespace@ by {
        assert(init[a] == listings[a] && init[b] == listings[b]);
    }
    if k < before.len() {
        let j = lemma_row_of_some_namespace(init, node_count, now, health, usage, k);
        assert(init[j] == listings[j]);
    } else {
        law_namespace_cost_leaves_out_cron_jobs(
            listings.last(),
            node_count,
            now,
            health,
            usage,
            k - before.len(),
        );
    }
    if i < listings.len() - 1 {
        assert(init[i] == listings[i]);
        assert(listings[i].namespace@ != listings[listings.len() - 1].namespace@);
        lemma_billed_within(init, node_count, now, health, usage, name);
        if k < before.len() {
            law_namespaces_are_billed_their_own_rows(init, node_count, now, health, usage, i, k);
        }
    }
}

proof fn lemma_pods_recorded(recorded: Set<Seq<char>>, listings: Seq<PodListing>, i: int)
    requires
        0 <= i < listings.len(),
    ensures
        listings[i].replica_sets is None ==> recorded_for_pods(recorded, listings).contains(
            "replicasets"@,
        ),
        listings[i].budgets is None ==> recorded_for_pods(recorded, listings).contains(
            "poddisruptionbudgets"@,
        ),
        listings[i].pods is None ==> recorded_for_pods(recorded, listings).contains("pods"@),
    decreases listings.len(),
{
    if i < listings.len() - 1 {
        lemma_pods_recorded(recorded, listings.drop_last(), i);
    }
}

proof fn lemma_pods_keep(recorded: Set<Seq<char>>, listings: Seq<PodListing>)
    ensures
        recorded.subset_of(recorded_for_pods(recorded, listings)),
    decreases listings.len(),
{
    if listings.len() > 0 {
        lemma_pods_keep(recorded, listings.drop_last());
    }
}

proof fn lemma_workloads_recorded(recorded: Set<Seq<char>>, listings: Seq<WorkloadListing>, i: int)
    requires
        0 <= i < listings.len(),
    ensures
        listings[i].hpas is None ==> recorded_for_workloads(recorded, listings).contains(
            "horizontalpodautoscalers"@,
        ),
        listings[i].deployments is None ==> recorded_for_workloads(recorded, listings).contains(
            "deployments"@,
        ),
        listings[i].stateful_sets is None ==> recorded_for_workloads(recorded, listings).contains(
            "statefulsets"@,
        ),
        listings[i].daemon_sets is None ==> recorded_for_workloads(recorded, listings).contains(
            "daemonsets"@,
        ),
        listings[i].cron_jobs is None ==> recorded_for_workloads(recorded, listings).contains(
            "cronjobs"@,
        ),
        listings[i].jobs is None && listed(listings[i].cron_jobs).len() > 0
            ==> recorded_for_workloads(recorded, listings).contains("jobs"@),
    decreases listings.len(),
{
    if i < listings.len() - 1 {
        lemma_workloads_recorded(recorded, listings.drop_last(), i);
    }
}

proof fn lemma_workloads_keep(recorded: Set<Seq<char>>, listings: Seq<WorkloadListing>)
    ensures
        recorded.subset_of(recorded_for_workloads(recorded, listings)),
    decreases listings.len(),
{
    if listings.len() > 0 {
        lemma_workloads_keep(recorded, listings.drop_last());
    }
}

proof fn lemma_events_recorded(recorded: Set<Seq<char>>, listings: Seq<EventListing>, i: int)
    requires
        0 <= i < listings.len(),
        listings[i].events is None,
    ensures
        recorded_for_events(recorded, listings).contains("events"@),
    decreases listings.len(),
{
    if i < listings.len() - 1 {
        lemma_events_recorded(recorded, listings.drop_last(), i);
    }
}

proof fn lemma_events_keep(recorded: Set<Seq<char>>, listings: Seq<EventListing>)
    ensures
        recorded.subset_of(recorded_for_events(recorded, listings)),
    decreases listings.len(),
{
    if listings.len() > 0 {
        lemma_events_keep(recorded, listings.drop_last());
    }
}

/// Absent data is never silently read as a measurement: every call that failed, in
/// whichever namespace, leaves its subsystem among the failures of the pass.
pub proof fn law_failed_calls_are_reported(c: ClusterListing)
    ensures
        c.pod_metrics is None ==> failed_subsystems(c).contains("metrics-server"@),
        forall|i: int| #![trigger c.pods@[i]]
            0 <= i < c.pods@.len() ==> {
                &&& c.pods@[i].replica_sets is None ==> failed_subsystems(c).contains(
                    "replicasets"@,
                )
                &&& c.pods@[i].budgets is None ==> failed_subsystems(c).contains(
                    "poddisruptionbudgets"@,
                )
                &&& c.pods@[i].pods is None ==> failed_subsystems(c).contains("pods"@)
            },
        forall|i: int| #![trigger c.workloads@[i]]
            0 <= i < c.workloads@.len() ==> {
                &&& c.workloads@[i].hpas is None ==> failed_subsystems(c).contains(
                    "horizontalpodautoscalers"@,
                )
                &&& c.workloads@[i].deployments is None ==> failed_subsystems(c).contains(
                    "deployments"@,
                )
                &&& c.workloads@[i].stateful_sets is None ==> failed_subsystems(c).contains(
                    "statefulsets"@,
                )
                &&& c.workloads@[i].daemon_sets is None ==> failed_subsystems(c).contains(
                    "daemonsets"@,
                )
                &&& c.workloads@[i].cron_jobs is None ==> failed_subsystems(c).contains(
                    "cronjobs"@,
                )
                &&& c.workloads@[i].jobs is None && listed(c.workloads@[i].cron_jobs).len() > 0
                    ==> failed_subsystems(c).contains("jobs"@)
            },
        forall|i: int| #![trigger c.events@[i]]
            0 <= i < c.events@.len() && c.events@[i].events is None ==> failed_subsystems(
                c,
            ).contains("events"@),
{
    let start = match c.pod_metrics {
        Some(body) => Set::empty(),
        None => Set::empty().insert("metrics-server"@),
    };
    let after_pods = recorded_for_pods(start, c.pods@);
    let after_workloads = recorded_for_workloads(after_pods, c.workloads@);
    lemma_pods_keep(start, c.pods@);
    lemma_workloads_keep(after_pods, c.workloads@);
    lemma_events_keep(after_workloads, c.events@);
    assert forall|i: int| #![trigger c.pods@[i]] 0 <= i < c.pods@.len() implies {
        &&& c.pods@[i].replica_sets is None ==> failed_subsystems(c).contains("replicasets"@)
        &&& c.pods@[i].budgets is None ==> failed_subsystems(c).contains("poddisruptionbudgets"@)
        &&& c.pods@[i].pods is None ==> failed_subsystems(c).contains("pods"@)
    } by {
        lemma_pods_recorded(start, c.pods@, i);
    }
    assert forall|i: int| #![trigger c.workloads@[i]] 0 <= i < c.workloads@.len() implies {
        &&& c.workloads@[i].hpas is None ==> failed_subsystems(c).contains(
            "horizontalpodautoscalers"@,
        )
        &&& c.workloads@[i].deployments is None ==> failed_subsystems(c).contains("deployments"@)
        &&& c.workloads@[i].stateful_sets is None ==> failed_subsystems(c).contains(
            "statefulsets"@,
        )
        &&& c.workloads@[i].daemon_sets is None ==> failed_subsystems(c).contains("daemonsets"@)
        &&& c.workloads@[i].cron_jobs is None ==> failed_subsystems(c).contains("cronjobs"@)
        &&& c.workloads@[i].jobs is None && listed(c.workloads@[i].cron_jobs).len() > 0
            ==> failed_subsystems(c).contains("jobs"@)
    } by {
        lemma_workloads_recorded(after_pods, c.workloads@, i);
    }
    assert forall|i: int| #![trigger c.events@[i]]
        0 <= i < c.events@.len() && c.events@[i].events is None implies failed_subsystems(
        c,
    ).contains("events"@) by {
        lemma_events_recorded(after_workloads, c.events@, i);
    }
}

/// Whether every call of the pass succeeded.
pub open spec fn clean_pass(c: ClusterListing) -> bool {
    &&& c.pod_metrics is Some
    &&& forall|i: int| 0 <= i < c.pods@.len() ==> clean_pods(#[trigger] c.pods@[i])
    &&& forall|i: int| 0 <= i < c.workloads@.len() ==> clean_workloads(#[trigger] c.workloads@[i])
    &&& forall|i: int| 0 <= i < c.events@.len() ==> (#[trigger] c.events@[i]).events is Some
}

/// Whether every list call about the pods of a namespace succeeded.
pub open spec fn clean_pods(l: PodListing) -> bool {
    l.replica_sets is Some && l.budgets is Some && l.pods is Some
}

/// Whether every list call about the workloads of a namespace succeeded. KEDA may be
/// absent, and Jobs are not listed where there is no CronJob.
pub open spec fn clean_workloads(l: WorkloadListing) -> bool {
    &&& l.hpas is Some
    &&& l.deployments is Some
    &&& l.stateful_sets is Some
    &&& l.daemon_sets is Some
    &&& l.cron_jobs is Some
    &&& listed(l.cron_jobs).len() > 0 ==> l.jobs is Some
}

proof fn lemma_clean_pods(recorded: Set<Seq<char>>, listings: Seq<PodListing>)
    requires
        forall|i: int| 0 <= i < listings.len() ==> clean_pods(#[trigger] listings[i]),
    ensures
        recorded_for_pods(recorded, listings) == recorded,
    decreases listings.len(),
{
    if listings.len() > 0 {
        let init = listings.drop_last();
        assert forall|i: int| 0 <= i < init.len() implies clean_pods(#[trigger] init[i]) by {
            assert(init[i] == listings[i]);
        }
        lemma_clean_pods(recorded, init);
        assert(clean_pods(listings[listings.len() - 1]));
    }
}

proof fn lemma_clean_workloads(recorded: Set<Seq<char>>, listings: Seq<WorkloadListing>)
    requires
        forall|i: int| 0 <= i < listings.len() ==> clean_workloads(#[trigger] listings[i]),
    ensures
        recorded_for_workloads(recorded, listings) == recorded,
    decreases listings.len(),
{
    if listings.len() > 0 {
        let init = listings.drop_last();
        assert forall|i: int| 0 <= i < init.len() implies clean_workloads(#[trigger] init[i]) by {
            assert(init[i] == listings[i]);
        }
        lemma_clean_workloads(recorded, init);
        assert(clean_workloads(listings[listings.len() - 1]));
    }
}

proof fn lemma_clean_events(recorded: Set<Seq<char>>, listings: Seq<EventListing>)
    requires
        forall|i: int| 0 <= i < listings.len() ==> (#[trigger] listings[i]).events is Some,
    ensures
        recorded_for_events(recorded, listings) == recorded,
    decreases listings.len(),
{
    if listings.len() > 0 {
        let init = listings.drop_last();
        assert forall|i: int| 0 <= i < init.len() implies (#[trigger] init[i]).events is Some by {
            assert(init[i] == listings[i]);
        }
        lemma_clean_events(recorded, init);
        assert(listings[listings.len() - 1].events is Some);
    }
}

/// A pass in which every call succeeded reports no failure.
pub proof fn law_clean_pass_reports_no_failure(c: ClusterListing)
    requires
        clean_pass(c),
    ensures
        failed_subsystems(c) == Set::<Seq<char>>::empty(),
{
    let none = Set::<Seq<char>>::empty();
    lemma_clean_pods(none, c.pods@);
    lemma_clean_workloads(none, c.workloads@);
    lemma_clean_events(none, c.events@);
}

/// A namespace of which no activity is known is reported as active today, never as
/// idle for the largest number of days.
pub proof fn law_unknown_activity_is_not_idleness(from_pods: Option<u32>, from_events: u32)
    ensures
        activity_days(from_pods, from_events) < u32::MAX,
        (from_pods is None || from_pods == Some(u32::MAX)) && from_events == u32::MAX
            ==> activity_days(from_pods, from_events) == 0,
        from_events < u32::MAX ==> activity_days(from_pods, from_events) <= from_events,
        from_pods matches Some(n) ==> n < u32::MAX ==> activity_days(from_pods, from_events) <= n,
{
}

/// Whether a pass listed exactly `names`: the pods, the workloads and the events of
/// each, once and in this order.
pub open spec fn lists(c: ClusterListing, names: Seq<Seq<char>>) -> bool {
    &&& c.pods@.len() == names.len()
    &&& c.workloads@.len() == names.len()
    &&& c.events@.len() == names.len()
    &&& forall|i: int| 0 <= i < names.len() ==> (#[trigger] c.pods@[i]).namespace@ == names[i]
    &&& forall|i: int| 0 <= i < names.len() ==> (#[trigger] c.workloads@[i]).namespace@ == names[i]
    &&& forall|i: int| 0 <= i < names.len() ==> (#[trigger] c.events@[i]).namespace@ == names[i]
}

/// The names of the namespaces that a snapshot reports, in order.
pub open spec fn reported_names(s: AgentSnapshot) -> Seq<Seq<char>> {
    Seq::new(s.namespaces@.len(), |i: int| s.namespaces@[i].name@)
}

/// The age in days of the youngest pod of a listing, where its pods could be read.
pub open spec fn pod_days(l: PodListing, now: int) -> Option<u32> {
    match l.pods {
        Some(pods) => Some(youngest(pods@, now)),
        None => None,
    }
}

/// Whether namespace `i` of a snapshot is reported from its own listings: how many
/// workloads it has, how long ago it was active, and which rows it is billed for.
pub open spec fn reports_its_own(
    s: AgentSnapshot,
    c: ClusterListing,
    now: int,
    usage: UsageByContainer,
    i: int,
) -> bool {
    let n = s.namespaces@[i];
    &&& n.workload_count == wrapped(workloads_in(c.workloads@[i]))
    &&& n.days_since_last_activity == activity_days(
        pod_days(c.pods@[i], now),
        event_days(c.events@[i].events, now),
    )
    &&& n.billed_from <= n.billed_to <= s.workloads@.len()
    &&& s.workloads.deep_view().subrange(n.billed_from as int, n.billed_to as int) == billed_rows(
        c.workloads@[i],
        c.nodes@.len() as u32,
        now,
        health_by_workload(sightings(c.pods@)),
        usage,
    )
}

proof fn lemma_own_totals(
    listings: Seq<WorkloadListing>,
    node_count: u32,
    now: int,
    health: HealthByWorkload,
    usage: UsageByContainer,
    i: int,
)
    requires
        namespaces_distinct(listings),
        0 <= i < listings.len(),
    ensures
        totals_by_namespace(listings, node_count, now, health, usage).dom().contains(
            listings[i].namespace@,
        ),
        ({
            let rows = all_rows(listings, node_count, now, health, usage);
            let (count, from, to) = totals_by_namespace(
                listings,
                node_count,
                now,
                health,
                usage,
            )[listings[i].namespace@];
            &&& count == wrapped(workloads_in(listings[i]))
            &&& 0 <= from <= to <= rows.len()
            &&& rows.subrange(from, to) == billed_rows(listings[i], node_count, now, health, usage)
        }),
    decreases listings.len(),
{
    let init = listings.drop_last();
    let before = all_rows(init, node_count, now, health, usage);
    let rows = all_rows(listings, node_count, now, health, usage);
    if i < listings.len() - 1 {
        assert forall|a: int, b: int| 0 <= a < b < init.len() implies (
        #[trigger] init[a]).namespace@ != (#[trigger] init[b]).namespace@ by {
            assert(init[a] == listings[a] && init[b] == listings[b]);
        }
        assert(init[i] == listings[i]);
        assert(listings[i].namespace@ != listings[listings.len() - 1].namespace@);
        lemma_own_totals(init, node_count, now, health, usage, i);
        let (count, from, to) = totals_by_namespace(
            init,
            node_count,
            now,
            health,
            usage,
        )[listings[i].namespace@];
        assert(rows.subrange(from, to) == before.subrange(from, to));
    } else {
        let own = billed_rows(listings[i], node_count, now, health, usage);
        assert(rows.subrange(before.len() as int, (before.len() + own.len()) as int) == own);
    }
}

proof fn lemma_activity_absent(listings: Seq<PodListing>, now: int, name: Seq<char>)
    requires
        forall|j: int| 0 <= j < listings.len() ==> (#[trigger] listings[j]).namespace@ != name,
    ensures
        !activity_by_namespace(listings, now).dom().contains(name),
    decreases listings.len(),
{
    if listings.len() > 0 {
        let init = listings.drop_last();
        assert forall|j: int| 0 <= j < init.len() implies (#[trigger] init[j]).namespace@
            != name by {
            assert(init[j] == listings[j]);
        }
        lemma_activity_absent(init, now, name);
        assert(listings[listings.len() - 1].namespace@ != name);
    }
}

proof fn lemma_own_activity(listings: Seq<PodListing>, now: int, i: int)
    requires
        forall|a: int, b: int|
            0 <= a < b < listings.len() ==> (#[trigger] listings[a]).namespace@ != (
            #[trigger] listings[b]).namespace@,
        0 <= i < listings.len(),
    ensures
        looked_up(activity_by_namespace(listings, now), listings[i].namespace@) == pod_days(
            listings[i],
            now,
        ),
    decreases listings.len(),
{
    let init = listings.drop_last();
    let last = listings.len() - 1;
    if i < last {
        assert forall|a: int, b: int| 0 <= a < b < init.len() implies (
        #[trigger] init[a]).namespace@ != (#[trigger] init[b]).namespace@ by {
            assert(init[a] == listings[a] && init[b] == listings[b]);
        }
        assert(init[i] == listings[i]);
        assert(listings[i].namespace@ != listings[last].namespace@);
        lemma_own_activity(init, now, i);
    } else {
        assert forall|j: int| 0 <= j < init.len() implies (#[trigger] init[j]).namespace@
            != listings[last].namespace@ by {
            assert(init[j] == listings[j]);
        }
        lemma_activity_absent(init, now, listings[last].namespace@);
    }
}

/// The namespaces of a snapshot are exactly those that were to be collected, in their
/// order. Where none is named twice, each is reported from its own listings.
pub proof fn law_snapshot_reports_the_targets(
    s: AgentSnapshot,
    c: ClusterListing,
    names: Seq<Seq<char>>,
    configured_provider: Option<Seq<char>>,
    now: int,
    collected_at: Seq<char>,
    elapsed_ms: u128,
    agent_version: Seq<char>,
)
    requires
        is_snapshot(s, c, configured_provider, now, collected_at, elapsed_ms, agent_version),
        lists(c, names),
    ensures
        reported_names(s) == names,
        names.no_duplicates() ==> exists|usage: UsageByContainer|
            usage_read(usage, c) && #[trigger] rows_right(s, c, now, usage) && forall|i: int|
                0 <= i < names.len() ==> #[trigger] reports_its_own(s, c, now, usage, i),
{
    let usage = choose|usage: UsageByContainer|
        usage_read(usage, c) && #[trigger] rows_right(s, c, now, usage);
    let health = health_by_workload(sightings(c.pods@));
    let node_count = c.nodes@.len() as u32;
    let totals = totals_by_namespace(c.workloads@, node_count, now, health, usage);
    let activity = activity_by_namespace(c.pods@, now);
    let rows = namespaces_rows(c.events@, totals, activity, now);
    assert(s.namespaces.deep_view() == rows);
    assert forall|i: int| 0 <= i < names.len() implies (#[trigger] s.namespaces@[i]).name@
        == names[i] by {
        assert(s.namespaces.deep_view()[i] == s.namespaces@[i].deep_view());
        assert(rows[i].name == c.events@[i].namespace@);
    }
    if names.no_duplicates() {
        assert(namespaces_distinct(c.workloads@));
        assert forall|i: int| 0 <= i < names.len() implies #[trigger] reports_its_own(
            s,
            c,
            now,
            usage,
            i,
        ) by {
            assert(s.namespaces.deep_view()[i] == s.namespaces@[i].deep_view());
            assert(rows[i] == namespace_row(c.events@[i], totals, activity, now));
            assert(c.workloads@[i].namespace@ == names[i] && c.pods@[i].namespace@ == names[i]
                && c.events@[i].namespace@ == names[i]);
            lemma_own_totals(c.workloads@, node_count, now, health, usage, i);
            lemma_own_activity(c.pods@, now, i);
            assert(s.workloads.deep_view().len() == s.workloads@.len());
        }
    }
}

} // verus!
