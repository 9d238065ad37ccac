//! Resource usage: what the metrics server reports of containers, gathered by workload.
//!
//! Usage stays in the quantities that the metrics server wrote.

use crate::json::Json;
use crate::pods::{wrapped, OwnerMap};
use crate::table::{looked_up, Table};
use vstd::prelude::*;

verus! {

/// Usage of one container, as CPU and memory quantities; `None` where one is not reported.
pub struct ContainerMetric {
    pub name: String,
    pub cpu: Option<String>,
    pub memory: Option<String>,
}

/// [`ContainerMetric`] as a mathematical value.
pub struct MetricModel {
    pub name: Seq<char>,
    pub cpu: Option<Seq<char>>,
    pub memory: Option<Seq<char>>,
}

/// The CPU and the memory quantity that one container reports.
pub struct UsageSample {
    pub cpu: Option<String>,
    pub memory: Option<String>,
}

/// The usage of one container of a workload over all its running pods.
pub struct WorkloadUsage {
    pub samples: Vec<UsageSample>,
}

/// Metrics by the namespace and the name of the pod.
pub type PodMetrics = Table<(String, String), Vec<ContainerMetric>>;

/// Usage by namespace, workload type, workload name and container name.
pub type UsageMap = Table<(String, String, String, String), WorkloadUsage>;

impl DeepView for ContainerMetric {
    type V = MetricModel;

    open spec fn deep_view(&self) -> MetricModel {
        MetricModel {
            name: self.name@,
            cpu: self.cpu.deep_view(),
            memory: self.memory.deep_view(),
        }
    }
}

impl DeepView for UsageSample {
    type V = (Option<Seq<char>>, Option<Seq<char>>);

    open spec fn deep_view(&self) -> (Option<Seq<char>>, Option<Seq<char>>) {
        (self.cpu.deep_view(), self.memory.deep_view())
    }
}

impl DeepView for WorkloadUsage {
    type V = Seq<(Option<Seq<char>>, Option<Seq<char>>)>;

    open spec fn deep_view(&self) -> Seq<(Option<Seq<char>>, Option<Seq<char>>)> {
        self.samples.deep_view()
    }
}

impl WorkloadUsage {
    /// How many pods report this container, in the low 32 bits.
    pub fn pod_count(&self) -> (r: u32)
        ensures
            r == wrapped(self.deep_view().len()),
    {
        (self.samples.len() as u64 % 0x1_0000_0000) as u32
    }
}

/// What a container of the metrics body reports. `None` without a name or without usage.
pub open spec fn container_metric(c: Json) -> Option<MetricModel> {
    match (c.member_text("name"@), c.member("usage"@)) {
        (Some(name), Some(usage)) => Some(
            MetricModel {
                name,
                cpu: usage.member_text("cpu"@),
                memory: usage.member_text("memory"@),
            },
        ),
        _ => None,
    }
}

/// What the containers report, without those that report nothing.
pub open spec fn container_metrics(containers: Seq<Json>) -> Seq<MetricModel>
    decreases containers.len(),
{
    if containers.len() == 0 {
        Seq::empty()
    } else {
        let before = container_metrics(containers.drop_last());
        match container_metric(containers.last()) {
            Some(metric) => before.push(metric),
            None => before,
        }
    }
}

/// What the containers of a pod of the metrics body report.
pub open spec fn item_metrics(item: Json) -> Seq<MetricModel> {
    match item.member_or_null("containers"@).as_elements() {
        Some(containers) => container_metrics(containers),
        None => Seq::empty(),
    }
}

/// The text in `text`, empty where there is none.
pub open spec fn text_or_empty(text: Option<Seq<char>>) -> Seq<char> {
    match text {
        Some(t) => t,
        None => Seq::empty(),
    }
}

/// The namespace and the name of a pod of the metrics body.
pub open spec fn item_key(metadata: Json) -> (Seq<char>, Seq<char>) {
    (
        text_or_empty(metadata.member_text("namespace"@)),
        text_or_empty(metadata.member_text("name"@)),
    )
}

/// The metrics of the pods of the metrics body, without pods that have no metadata
/// and pods of which no container reports; those of the last pod of a name where
/// there are several.
pub open spec fn items_metrics(items: Seq<Json>) -> Map<(Seq<char>, Seq<char>), Seq<MetricModel>>
    decreases items.len(),
{
    if items.len() == 0 {
        Map::empty()
    } else {
        let before = items_metrics(items.drop_last());
        match items.last().member("metadata"@) {
            Some(metadata) => if item_metrics(items.last()).len() > 0 {
                before.insert(item_key(metadata), item_metrics(items.last()))
            } else {
                before
            },
            None => before,
        }
    }
}

/// The metrics that the body of the metrics server holds.
pub open spec fn pod_metrics(body: Json) -> Map<(Seq<char>, Seq<char>), Seq<MetricModel>> {
    match body.member_or_null("items"@).as_elements() {
        Some(items) => items_metrics(items),
        None => Map::empty(),
    }
}

/// What one container of a workload's pod reports.
pub struct Reading {
    pub key: (Seq<char>, Seq<char>, Seq<char>, Seq<char>),
    pub cpu: Option<Seq<char>>,
    pub memory: Option<Seq<char>>,
}

/// What the containers of a pod report, for the workload that owns it.
pub open spec fn pod_readings(
    namespace: Seq<char>,
    owner: (Seq<char>, Seq<char>),
    containers: Seq<MetricModel>,
) -> Seq<Reading> {
    Seq::new(
        containers.len(),
        |i: int|
            Reading {
                key: (namespace, owner.0, owner.1, containers[i].name),
                cpu: containers[i].cpu,
                memory: containers[i].memory,
            },
    )
}

/// What all containers report, pod by pod, without pods that no workload owns.
pub open spec fn readings(
    entries: Seq<((String, String), Vec<ContainerMetric>)>,
    owners: Map<(Seq<char>, Seq<char>), (Seq<char>, Seq<char>)>,
) -> Seq<Reading>
    decreases entries.len(),
{
    if entries.len() == 0 {
        Seq::empty()
    } else {
        let before = readings(entries.drop_last(), owners);
        let (pod, containers) = entries.last();
        match looked_up(owners, pod.deep_view()) {
            Some(owner) => before + pod_readings(pod.0@, owner, containers.deep_view()),
            None => before,
        }
    }
}

/// Whether something is reported under `key`.
pub open spec fn reported(
    r: Seq<Reading>,
    key: (Seq<char>, Seq<char>, Seq<char>, Seq<char>),
) -> bool {
    exists|i: int| 0 <= i < r.len() && (#[trigger] r[i]).key == key
}

/// What is reported under `key`, in order.
pub open spec fn samples(
    r: Seq<Reading>,
    key: (Seq<char>, Seq<char>, Seq<char>, Seq<char>),
) -> Seq<(Option<Seq<char>>, Option<Seq<char>>)>
    decreases r.len(),
{
    if r.len() == 0 {
        Seq::empty()
    } else {
        let before = samples(r.drop_last(), key);
        if r.last().key == key {
            before.push((r.last().cpu, r.last().memory))
        } else {
            before
        }
    }
}

/// What is reported of every container of every workload.
pub open spec fn usage_by_container(r: Seq<Reading>) -> Map<
    (Seq<char>, Seq<char>, Seq<char>, Seq<char>),
    Seq<(Option<Seq<char>>, Option<Seq<char>>)>,
> {
    Map::new(
        |key: (Seq<char>, Seq<char>, Seq<char>, Seq<char>)| reported(r, key),
        |key: (Seq<char>, Seq<char>, Seq<char>, Seq<char>)| samples(r, key),
    )
}

fn member_string(value: &Json, name: &str) -> (r: Option<String>)
    ensures
        r.deep_view() == value.member_text(name@),
{
    match value.at(name).as_str() {
        Some(s) => Some(s.clone()),
        None => None,
    }
}

fn string_or_empty(text: Option<String>) -> (r: String)
    ensures
        r@ == text_or_empty(text.deep_view()),
{
    match text {
        Some(s) => s,
        None => String::new(),
    }
}

fn metric_of(c: &Json) -> (r: Option<ContainerMetric>)
    ensures
        r.deep_view() == container_metric(*c),
{
    let name: String = match member_string(c, "name") {
        Some(name) => name,
        None => {
            return None;
        },
    };
    match c.get("usage") {
        Some(usage) => Some(
            ContainerMetric {
                name,
                cpu: member_string(usage, "cpu"),
                memory: member_string(usage, "memory"),
            },
        ),
        None => None,
    }
}

fn metrics_of(containers: &Vec<Json>) -> (r: Vec<ContainerMetric>)
    ensures
        r.deep_view() == container_metrics(containers@),
{
    let mut out: Vec<ContainerMetric> = Vec::new();
    let mut i: usize = 0;
    assert(out.deep_view() == Seq::<MetricModel>::empty());
    while i < containers.len()
        invariant
            i <= containers.len(),
            out.deep_view() == container_metrics(containers@.take(i as int)),
        decreases containers.len() - i,
    {
        assert(containers@.take(i + 1).drop_last() == containers@.take(i as int));
        let ghost before = out.deep_view();
        match metric_of(&containers[i]) {
            Some(metric) => {
                out.push(metric);
                assert(out.deep_view() == before.push(metric.deep_view()));
            },
            None => {},
        }
        i += 1;
    }
    assert(containers@.take(containers@.len() as int) == containers@);
    out
}

/// Parses a pod metrics list into per-pod container usage.
///
/// A container without usage is dropped, and a pod without any container left is
/// left out. A body of another shape holds no metrics.
pub fn parse_pod_metrics_json(val: &Json) -> (r: PodMetrics)
    ensures
        r.deep_view() == pod_metrics(*val),
{
    let mut map: PodMetrics = Table::new();
    match val.at("items").as_array() {
        Some(items) => {
            let mut i: usize = 0;
            while i < items.len()
                invariant
                    i <= items.len(),
                    map.deep_view() == items_metrics(items@.take(i as int)),
                decreases items.len() - i,
            {
                assert(items@.take(i + 1).drop_last() == items@.take(i as int));
                let item: &Json = &items[i];
                match item.get("metadata") {
                    Some(metadata) => {
                        let containers: Vec<ContainerMetric> = match item.at(
                            "containers",
                        ).as_array() {
                            Some(containers) => metrics_of(containers),
                            None => Vec::new(),
                        };
                        proof {
                            assert(containers@.len() == 0 ==> containers.deep_view() == Seq::<
                                MetricModel,
                            >::empty());
                            assert(containers.deep_view() == item_metrics(*item));
                        }
                        if containers.len() > 0 {
                            let key = (
                                string_or_empty(member_string(metadata, "namespace")),
                                string_or_empty(member_string(metadata, "name")),
                            );
                            map.insert(key, containers);
                        }
                    },
                    None => {},
                }
                i += 1;
            }
            assert(items@.take(items@.len() as int) == items@);
        },
        None => {},
    }
    map
}

fn copy_text(text: &Option<String>) -> (r: Option<String>)
    ensures
        r.deep_view() == text.deep_view(),
{
    match text {
        Some(s) => Some(s.clone()),
        None => None,
    }
}

/// Adds what a container reports to the usage of its workload.
fn add_reading(
    usage: &mut UsageMap,
    key: (String, String, String, String),
    metric: &ContainerMetric,
    Ghost(r): Ghost<Seq<Reading>>,
)
    requires
        old(usage).deep_view() == usage_by_container(r),
    ensures
        final(usage).deep_view() == usage_by_container(
            r.push(
                Reading {
                    key: key.deep_view(),
                    cpu: metric.cpu.deep_view(),
                    memory: metric.memory.deep_view(),
                },
            ),
        ),
{
    let ghost k = key.deep_view();
    let ghost reading = Reading {
        key: k,
        cpu: metric.cpu.deep_view(),
        memory: metric.memory.deep_view(),
    };
    let mut entry: WorkloadUsage = match usage.take(&key) {
        Some(entry) => entry,
        None => WorkloadUsage { samples: Vec::new() },
    };
    proof {
        if !reported(r, k) {
            lemma_unreported(r, k);
        }
        assert(entry.deep_view() =~= samples(r, k));
    }
    let ghost before = entry.deep_view();
    entry.samples.push(
        UsageSample { cpu: copy_text(&metric.cpu), memory: copy_text(&metric.memory) },
    );
    assert(entry.deep_view() =~= before.push((reading.cpu, reading.memory)));
    usage.insert(key, entry);
    proof {
        let after = r.push(reading);
        assert(after.drop_last() == r);
        lemma_reported_push(r, reading);
        assert(usage.deep_view() =~= usage_by_container(after));
    }
}

proof fn lemma_unreported(r: Seq<Reading>, key: (Seq<char>, Seq<char>, Seq<char>, Seq<char>))
    requires
        !reported(r, key),
    ensures
        samples(r, key) == Seq::<(Option<Seq<char>>, Option<Seq<char>>)>::empty(),
    decreases r.len(),
{
    if r.len() > 0 {
        let init = r.drop_last();
        assert(r[r.len() - 1].key != key);
        assert(!reported(init, key)) by {
            if reported(init, key) {
                let i = choose|i: int| 0 <= i < init.len() && (#[trigger] init[i]).key == key;
                assert(r[i].key == key);
            }
        }
        lemma_unreported(init, key);
    }
}

proof fn lemma_reported_push(r: Seq<Reading>, reading: Reading)
    ensures
        forall|key: (Seq<char>, Seq<char>, Seq<char>, Seq<char>)|
            reported(r.push(reading), key) == (reported(r, key) || key == reading.key),
{
    let after = r.push(reading);
    assert forall|key: (Seq<char>, Seq<char>, Seq<char>, Seq<char>)|
        reported(r.push(reading), key) == (reported(r, key) || key == reading.key) by {
        if reported(r, key) {
            let i = choose|i: int| 0 <= i < r.len() && (#[trigger] r[i]).key == key;
            assert(after[i].key == key);
        }
        if key == reading.key {
            assert(after[r.len() as int].key == key);
        }
        if reported(after, key) {
            let i = choose|i: int| 0 <= i < after.len() && (#[trigger] after[i]).key == key;
            if i < r.len() {
                assert(r[i].key == key);
            }
        }
    }
}

/// Gathers the metrics of pods by workload and container. Pods that no workload
/// owns are skipped.
pub fn aggregate_workload_usage(pod_metrics: &PodMetrics, pod_owner_map: &OwnerMap) -> (r: UsageMap)
    ensures
        r.deep_view() == usage_by_container(
            readings(pod_metrics.list(), pod_owner_map.deep_view()),
        ),
{
    let mut usage: UsageMap = Table::new();
    let ghost entries = pod_metrics.list();
    let ghost owners = pod_owner_map.deep_view();
    let n: usize = pod_metrics.len();
    let mut i: usize = 0;
    assert(usage.deep_view() =~= usage_by_container(Seq::empty()));
    while i < n
        invariant
            i <= n == entries.len(),
            entries == pod_metrics.list(),
            owners == pod_owner_map.deep_view(),
            usage.deep_view() == usage_by_container(readings(entries.take(i as int), owners)),
        decreases n - i,
    {
        let ghost before = readings(entries.take(i as int), owners);
        assert(entries.take(i + 1).drop_last() == entries.take(i as int));
        let pod: &(String, String) = pod_metrics.key_at(i);
        let containers: &Vec<ContainerMetric> = pod_metrics.value_at(i);
        match pod_owner_map.get(pod) {
            Some(owner) => {
                let ghost all = pod_readings(pod.0@, owner.deep_view(), containers.deep_view());
                let mut j: usize = 0;
                assert(before + all.take(0) == before);
                while j < containers.len()
                    invariant
                        j <= containers.len(),
                        all == pod_readings(pod.0@, owner.deep_view(), containers.deep_view()),
                        usage.deep_view() == usage_by_container(before + all.take(j as int)),
                    decreases containers.len() - j,
                {
                    let c: &ContainerMetric = &containers[j];
                    let key = (
                        pod.0.clone(),
                        owner.workload_type.clone(),
                        owner.workload_name.clone(),
                        c.name.clone(),
                    );
                    add_reading(&mut usage, key, c, Ghost(before + all.take(j as int)));
                    proof {
                        assert(all[j as int] == (Reading {
                            key: key.deep_view(),
                            cpu: c.cpu.deep_view(),
                            memory: c.memory.deep_view(),
                        }));
                        assert((before + all.take(j as int)).push(all[j as int]) == before
                            + all.take(j + 1));
                    }
                    j += 1;
                }
                assert(all.take(all.len() as int) == all);
            },
            None => {},
        }
        i += 1;
    }
    assert(entries.take(n as int) == entries);
    usage
}

} // verus!
