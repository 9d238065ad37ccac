//! The collector: everything that turns what the API server returned into a snapshot.

pub use crate::autoscaler::{
    autoscaler_map, hpa_fields, keda_fields, to_u32, AutoscalerContext, AutoscalerMap, HpaFields,
    HorizontalPodAutoscaler, HpaSpec, KedaFields, ResourceMetric,
};
pub use crate::degradations::Degradations;
pub use crate::json::{parse_k8s_version, Json};
pub use crate::nodes::{
    aggregate_node_pools, capacity_type_from_labels, node_meta, node_resources, parse_provider_id,
    Node, NodeMeta, NodePool, NodeStatus,
};
pub use crate::pods::{
    budget_floors, build_pod_owner_map, pdb_floor, ActivityMap, ContainerStatus, HealthMap,
    IntOrString, OwnerMap, OwnerReference, Pod, PodDisruptionBudget, PodListing, PodOwner,
    PodStatus, ReplicaSet, WorkloadHealth,
};
pub use crate::quantity::{
    parse_cpu_to_millicores, parse_memory_to_mib, split_cpu_quantity, split_memory_quantity,
    CpuUnit, MemoryUnit,
};
pub use crate::snapshot::{
    add_namespace, assemble, choose_cloud_provider, collect, cronjob_failures, last_event_days,
    lists_jobs, lists_namespaces, target_namespaces, AgentSnapshot, ClusterListing, CronJob,
    EventListing, Job, NamespaceMetrics, NamespaceTotals, Workload, WorkloadListing,
};
pub use crate::table::{Labels, Table};
pub use crate::time::{days_since, format_rfc3339, whole_days_between, Timestamp};
pub use crate::usage::{
    aggregate_workload_usage, parse_pod_metrics_json, ContainerMetric, PodMetrics, UsageMap,
    UsageSample, WorkloadUsage,
};
pub use crate::workload::{
    apply_autoscaler_context, apply_workload_health, build_workload_metrics, Container,
    ResourceRequirements, WorkloadMetrics,
};
