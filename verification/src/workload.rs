//! Workload rows of a snapshot: one per container of every workload.

use crate::autoscaler::{AutoscalerContext, AutoscalerModel};
use crate::nodes::{cpu_in, cpu_of, memory_in, memory_of};
use crate::pods::{HealthModel, WorkloadHealth};
use crate::table::Labels;
use crate::text::same_text;
use crate::usage::{UsageSample, WorkloadUsage};
use vstd::prelude::*;

verus! {

/// What a container asks for and is limited to, as quantities by resource name.
pub struct ResourceRequirements {
    pub requests: Option<Labels>,
    pub limits: Option<Labels>,
}

/// A container of a pod template.
pub struct Container {
    pub name: String,
    pub resources: Option<ResourceRequirements>,
}

/// One container of a workload, as the snapshot reports it.
///
/// Usage is the list of what the running pods report; no sample means no usage.
pub struct WorkloadMetrics {
    pub namespace: String,
    pub workload_type: String,
    pub workload_name: String,
    pub container_name: String,
    pub replicas: u32,
    pub cpu_request_m: u32,
    pub cpu_limit_m: u32,
    pub memory_request_mi: u32,
    pub memory_limit_mi: u32,
    pub usage: Vec<UsageSample>,
    pub observation_days: u32,
    pub has_hpa: bool,
    pub hpa_min_replicas: u32,
    pub hpa_max_replicas: u32,
    pub hpa_target_cpu_pct: u32,
    pub hpa_current_replicas: u32,
    pub cronjob_suspended: bool,
    pub cronjob_last_schedule_ts: String,
    pub cronjob_recent_failures: u32,
    pub keda_scaled: bool,
    pub keda_min_replicas: u32,
    pub keda_trigger_types: String,
    pub restart_count: u32,
    pub oom_killed_count: u32,
    pub qos_class: String,
    pub has_pdb: bool,
    pub pdb_min_available: u32,
}

/// [`WorkloadMetrics`] as a mathematical value.
pub struct WorkloadModel {
    pub namespace: Seq<char>,
    pub workload_type: Seq<char>,
    pub workload_name: Seq<char>,
    pub container_name: Seq<char>,
    pub replicas: u32,
    pub cpu_request_m: u32,
    pub cpu_limit_m: u32,
    pub memory_request_mi: u32,
    pub memory_limit_mi: u32,
    pub usage: Seq<(Option<Seq<char>>, Option<Seq<char>>)>,
    pub observation_days: u32,
    pub has_hpa: bool,
    pub hpa_min_replicas: u32,
    pub hpa_max_replicas: u32,
    pub hpa_target_cpu_pct: u32,
    pub hpa_current_replicas: u32,
    pub cronjob_suspended: bool,
    pub cronjob_last_schedule_ts: Seq<char>,
    pub cronjob_recent_failures: u32,
    pub keda_scaled: bool,
    pub keda_min_replicas: u32,
    pub keda_trigger_types: Seq<char>,
    pub restart_count: u32,
    pub oom_killed_count: u32,
    pub qos_class: Seq<char>,
    pub has_pdb: bool,
    pub pdb_min_available: u32,
}

impl DeepView for WorkloadMetrics {
    type V = WorkloadModel;

    open spec fn deep_view(&self) -> WorkloadModel {
        WorkloadModel {
            namespace: self.namespace@,
            workload_type: self.workload_type@,
            workload_name: self.workload_name@,
            container_name: self.container_name@,
            replicas: self.replicas,
            cpu_request_m: self.cpu_request_m,
            cpu_limit_m: self.cpu_limit_m,
            memory_request_mi: self.memory_request_mi,
            memory_limit_mi: self.memory_limit_mi,
            usage: self.usage.deep_view(),
            observation_days: self.observation_days,
            has_hpa: self.has_hpa,
            hpa_min_replicas: self.hpa_min_replicas,
            hpa_max_replicas: self.hpa_max_replicas,
            hpa_target_cpu_pct: self.hpa_target_cpu_pct,
            hpa_current_replicas: self.hpa_current_replicas,
            cronjob_suspended: self.cronjob_suspended,
            cronjob_last_schedule_ts: self.cronjob_last_schedule_ts@,
            cronjob_recent_failures: self.cronjob_recent_failures,
            keda_scaled: self.keda_scaled,
            keda_min_replicas: self.keda_min_replicas,
            keda_trigger_types: self.keda_trigger_types@,
            restart_count: self.restart_count,
            oom_killed_count: self.oom_killed_count,
            qos_class: self.qos_class@,
            has_pdb: self.has_pdb,
            pdb_min_available: self.pdb_min_available,
        }
    }
}

/// The row with nothing in it: every field at the zero value of the wire schema.
pub open spec fn zero_row() -> WorkloadModel {
    WorkloadModel {
        namespace: Seq::empty(),
        workload_type: Seq::empty(),
        workload_name: Seq::empty(),
        container_name: Seq::empty(),
        replicas: 0,
        cpu_request_m: 0,
        cpu_limit_m: 0,
        memory_request_mi: 0,
        memory_limit_mi: 0,
        usage: Seq::empty(),
        observation_days: 0,
        has_hpa: false,
        hpa_min_replicas: 0,
        hpa_max_replicas: 0,
        hpa_target_cpu_pct: 0,
        hpa_current_replicas: 0,
        cronjob_suspended: false,
        cronjob_last_schedule_ts: Seq::empty(),
        cronjob_recent_failures: 0,
        keda_scaled: false,
        keda_min_replicas: 0,
        keda_trigger_types: Seq::empty(),
        restart_count: 0,
        oom_killed_count: 0,
        qos_class: Seq::empty(),
        has_pdb: false,
        pdb_min_available: 0,
    }
}

impl Default for WorkloadMetrics {
    fn default() -> (r: Self)
        ensures
            r.deep_view() == zero_row(),
    {
        let r = WorkloadMetrics {
            namespace: String::new(),
            workload_type: String::new(),
            workload_name: String::new(),
            container_name: String::new(),
            replicas: 0,
            cpu_request_m: 0,
            cpu_limit_m: 0,
            memory_request_mi: 0,
            memory_limit_mi: 0,
            usage: Vec::new(),
            observation_days: 0,
            has_hpa: false,
            hpa_min_replicas: 0,
            hpa_max_replicas: 0,
            hpa_target_cpu_pct: 0,
            hpa_current_replicas: 0,
            cronjob_suspended: false,
            cronjob_last_schedule_ts: String::new(),
            cronjob_recent_failures: 0,
            keda_scaled: false,
            keda_min_replicas: 0,
            keda_trigger_types: String::new(),
            restart_count: 0,
            oom_killed_count: 0,
            qos_class: String::new(),
            has_pdb: false,
            pdb_min_available: 0,
        };
        assert(r.usage.deep_view() =~= Seq::empty());
        r
    }
}

/// The CPU that a container asks for, in whole millicores.
pub open spec fn cpu_request(resources: Option<ResourceRequirements>) -> u32 {
    match resources {
        Some(r) => cpu_in(r.requests),
        None => 0,
    }
}

/// The CPU that a container is limited to, in whole millicores.
pub open spec fn cpu_limit(resources: Option<ResourceRequirements>) -> u32 {
    match resources {
        Some(r) => cpu_in(r.limits),
        None => 0,
    }
}

/// The memory that a container asks for, in whole MiB.
pub open spec fn memory_request(resources: Option<ResourceRequirements>) -> u32 {
    match resources {
        Some(r) => memory_in(r.requests),
        None => 0,
    }
}

/// The memory that a container is limited to, in whole MiB.
pub open spec fn memory_limit(resources: Option<ResourceRequirements>) -> u32 {
    match resources {
        Some(r) => memory_in(r.limits),
        None => 0,
    }
}

/// The row of a container, before autoscalers, health and schedules are added.
pub open spec fn plain_row(
    namespace: Seq<char>,
    workload_type: Seq<char>,
    workload_name: Seq<char>,
    container_name: Seq<char>,
    replicas: u32,
    observation_days: u32,
    resources: Option<ResourceRequirements>,
    usage: Option<Seq<(Option<Seq<char>>, Option<Seq<char>>)>>,
) -> WorkloadModel {
    WorkloadModel {
        namespace,
        workload_type,
        workload_name,
        container_name,
        replicas,
        cpu_request_m: cpu_request(resources),
        cpu_limit_m: cpu_limit(resources),
        memory_request_mi: memory_request(resources),
        memory_limit_mi: memory_limit(resources),
        usage: match usage {
            Some(samples) => samples,
            None => Seq::empty(),
        },
        observation_days,
        ..zero_row()
    }
}

/// A row with the guardrails of its workload, unchanged where none are known.
pub open spec fn with_health(row: WorkloadModel, health: Option<HealthModel>) -> WorkloadModel {
    match health {
        Some(h) => WorkloadModel {
            restart_count: h.restart_count,
            oom_killed_count: h.oom_killed_count,
            qos_class: h.qos_class,
            has_pdb: h.has_pdb,
            pdb_min_available: h.pdb_min_available,
            ..row
        },
        None => row,
    }
}

/// A row with the autoscalers of its workload, unchanged where there are none.
pub open spec fn with_context(
    row: WorkloadModel,
    context: Option<AutoscalerModel>,
) -> WorkloadModel {
    match context {
        Some(c) => WorkloadModel {
            has_hpa: c.has_hpa,
            hpa_min_replicas: c.hpa_min_replicas,
            hpa_max_replicas: c.hpa_max_replicas,
            hpa_target_cpu_pct: c.hpa_target_cpu_pct,
            hpa_current_replicas: c.hpa_current_replicas,
            keda_scaled: c.keda_scaled,
            keda_min_replicas: c.keda_min_replicas,
            keda_trigger_types: c.keda_trigger_types,
            ..row
        },
        None => row,
    }
}

/// Whether the cost of a row counts toward its namespace. A CronJob reserves
/// capacity only while a run is in flight, so it does not.
pub open spec fn billed(row: WorkloadModel) -> bool {
    row.workload_type != "CronJob"@
}

impl WorkloadMetrics {
    /// Whether the cost of this row counts toward its namespace.
    pub fn is_billed(&self) -> (r: bool)
        ensures
            r == billed(self.deep_view()),
    {
        !same_text(self.workload_type.as_str(), "CronJob")
    }
}

/// Copies a workload's guardrails onto a row. A workload whose pods were never seen
/// keeps the zero values, which mean "no signal" rather than "safe to shrink".
pub fn apply_workload_health(wl: &mut WorkloadMetrics, health: Option<&WorkloadHealth>)
    ensures
        final(wl).deep_view() == with_health(
            old(wl).deep_view(),
            match health {
                Some(h) => Some(h.deep_view()),
                None => None,
            },
        ),
{
    match health {
        Some(h) => {
            wl.restart_count = h.restart_count;
            wl.oom_killed_count = h.oom_killed_count;
            wl.qos_class = h.qos_class.clone();
            wl.has_pdb = h.has_pdb;
            wl.pdb_min_available = h.pdb_min_available;
        },
        None => {},
    }
}

/// Copies a workload's autoscaler context onto a row. A workload without an HPA and
/// without a ScaledObject keeps the zero values.
pub fn apply_autoscaler_context(wl: &mut WorkloadMetrics, ctx: Option<&AutoscalerContext>)
    ensures
        final(wl).deep_view() == with_context(
            old(wl).deep_view(),
            match ctx {
                Some(c) => Some(c.deep_view()),
                None => None,
            },
        ),
{
    match ctx {
        Some(c) => {
            wl.has_hpa = c.has_hpa;
            wl.hpa_min_replicas = c.hpa_min_replicas;
            wl.hpa_max_replicas = c.hpa_max_replicas;
            wl.hpa_target_cpu_pct = c.hpa_target_cpu_pct;
            wl.hpa_current_replicas = c.hpa_current_replicas;
            wl.keda_scaled = c.keda_scaled;
            wl.keda_min_replicas = c.keda_min_replicas;
            wl.keda_trigger_types = c.keda_trigger_types.clone();
        },
        None => {},
    }
}

fn copy_samples(samples: &Vec<UsageSample>) -> (r: Vec<UsageSample>)
    ensures
        r.deep_view() == samples.deep_view(),
{
    let mut out: Vec<UsageSample> = Vec::new();
    let mut i: usize = 0;
    while i < samples.len()
        invariant
            i <= samples.len(),
            out@.len() == i,
            forall|k: int|
                0 <= k < i ==> (#[trigger] out@[k]).deep_view() == samples@[k].deep_view(),
        decreases samples.len() - i,
    {
        let cpu: Option<String> = match &samples[i].cpu {
            Some(s) => Some(s.clone()),
            None => None,
        };
        let memory: Option<String> = match &samples[i].memory {
            Some(s) => Some(s.clone()),
            None => None,
        };
        out.push(UsageSample { cpu, memory });
        i += 1;
    }
    assert(out.deep_view() =~= samples.deep_view());
    out
}

/// Builds the row of a container. What it does not set stays at the zero values.
pub fn build_workload_metrics(
    ns: &str,
    workload_type: &str,
    workload_name: &str,
    container_name: &str,
    replicas: u32,
    observation_days: u32,
    resources: &Option<ResourceRequirements>,
    usage: Option<&WorkloadUsage>,
) -> (r: WorkloadMetrics)
    ensures
        r.deep_view() == plain_row(
            ns@,
            workload_type@,
            workload_name@,
            container_name@,
            replicas,
            observation_days,
            *resources,
            match usage {
                Some(u) => Some(u.deep_view()),
                None => None,
            },
        ),
{
    let mut wl = WorkloadMetrics::default();
    wl.namespace = ns.to_owned();
    wl.workload_type = workload_type.to_owned();
    wl.workload_name = workload_name.to_owned();
    wl.container_name = container_name.to_owned();
    wl.replicas = replicas;
    wl.observation_days = observation_days;
    match resources {
        Some(res) => {
            wl.cpu_request_m = cpu_of(&res.requests);
            wl.cpu_limit_m = cpu_of(&res.limits);
            wl.memory_request_mi = memory_of(&res.requests);
            wl.memory_limit_mi = memory_of(&res.limits);
        },
        None => {},
    }
    match usage {
        Some(u) => {
            wl.usage = copy_samples(&u.samples);
        },
        None => {},
    }
    wl
}

} // verus!
