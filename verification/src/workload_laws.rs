//! What holds of single rows and of the values on them.

use crate::autoscaler::AutoscalerModel;
use crate::degradations::strictly_sorted;
use crate::pods::{no_health, HealthModel};
use crate::nodes::{cpu_in, memory_in};
use crate::text::precedes;
use crate::time::{days_between, in_time_range, whole_second};
use crate::workload::{
    billed, plain_row, with_context, with_health, zero_row, ResourceRequirements, WorkloadModel,
};
use vstd::prelude::*;

verus! {

/// A row starts with what it is of, its replicas, its age, its resources and its usage;
/// nothing else is there yet.
pub proof fn law_plain_rows_hold_what_they_are_given(
    namespace: Seq<char>,
    workload_type: Seq<char>,
    workload_name: Seq<char>,
    container_name: Seq<char>,
    replicas: u32,
    observation_days: u32,
    resources: ResourceRequirements,
    usage: Seq<(Option<Seq<char>>, Option<Seq<char>>)>,
)
    ensures
        ({
            let row = plain_row(
                namespace,
                workload_type,
                workload_name,
                container_name,
                replicas,
                observation_days,
                Some(resources),
                Some(usage),
            );
            &&& row.namespace == namespace
            &&& row.workload_type == workload_type
            &&& row.workload_name == workload_name
            &&& row.container_name == container_name
            &&& row.replicas == replicas
            &&& row.observation_days == observation_days
            &&& row.cpu_request_m == cpu_in(resources.requests)
            &&& row.cpu_limit_m == cpu_in(resources.limits)
            &&& row.memory_request_mi == memory_in(resources.requests)
            &&& row.memory_limit_mi == memory_in(resources.limits)
            &&& row.usage == usage
        }),
        ({
            let row = plain_row(
                namespace,
                workload_type,
                workload_name,
                container_name,
                replicas,
                observation_days,
                None,
                None,
            );
            &&& row.cpu_request_m == 0
            &&& row.cpu_limit_m == 0
            &&& row.memory_request_mi == 0
            &&& row.memory_limit_mi == 0
            &&& row.usage.len() == 0
            &&& !row.has_hpa
            &&& !row.keda_scaled
            &&& !row.cronjob_suspended
            &&& row.cronjob_last_schedule_ts.len() == 0
            &&& row.cronjob_recent_failures == 0
            &&& row.restart_count == 0
            &&& row.oom_killed_count == 0
            &&& row.qos_class.len() == 0
            &&& !row.has_pdb
            &&& row.pdb_min_available == 0
        }),
{
}

/// The guardrails of a workload go onto its row, each to its own field, and change nothing
/// else; where they are unknown the row stays as it is.
pub proof fn law_health_goes_onto_the_row(row: WorkloadModel, health: HealthModel)
    ensures
        with_health(row, None) == row,
        ({
            let after = with_health(row, Some(health));
            &&& after.restart_count == health.restart_count
            &&& after.oom_killed_count == health.oom_killed_count
            &&& after.qos_class == health.qos_class
            &&& after.has_pdb == health.has_pdb
            &&& after.pdb_min_available == health.pdb_min_available
            &&& after == (WorkloadModel {
                restart_count: after.restart_count,
                oom_killed_count: after.oom_killed_count,
                qos_class: after.qos_class,
                has_pdb: after.has_pdb,
                pdb_min_available: after.pdb_min_available,
                ..row
            })
        }),
        no_health().restart_count == 0,
        no_health().oom_killed_count == 0,
        no_health().qos_class.len() == 0,
        !no_health().has_pdb,
        no_health().pdb_min_available == 0,
{
}

/// The autoscalers of a workload go onto its row, each to its own field, and change
/// nothing else; where there are none the row stays as it is.
pub proof fn law_autoscalers_go_onto_the_row(row: WorkloadModel, context: AutoscalerModel)
    ensures
        with_context(row, None) == row,
        ({
            let after = with_context(row, Some(context));
            &&& after.has_hpa == context.has_hpa
            &&& after.hpa_min_replicas == context.hpa_min_replicas
            &&& after.hpa_max_replicas == context.hpa_max_replicas
            &&& after.hpa_target_cpu_pct == context.hpa_target_cpu_pct
            &&& after.hpa_current_replicas == context.hpa_current_replicas
            &&& after.keda_scaled == context.keda_scaled
            &&& after.keda_min_replicas == context.keda_min_replicas
            &&& after.keda_trigger_types == context.keda_trigger_types
            &&& after == (WorkloadModel {
                has_hpa: after.has_hpa,
                hpa_min_replicas: after.hpa_min_replicas,
                hpa_max_replicas: after.hpa_max_replicas,
                hpa_target_cpu_pct: after.hpa_target_cpu_pct,
                hpa_current_replicas: after.hpa_current_replicas,
                keda_scaled: after.keda_scaled,
                keda_min_replicas: after.keda_min_replicas,
                keda_trigger_types: after.keda_trigger_types,
                ..row
            })
        }),
{
}

/// Health and autoscalers can be put onto a row in either order.
pub proof fn law_health_and_autoscalers_do_not_meet(
    row: WorkloadModel,
    health: Option<HealthModel>,
    context: Option<AutoscalerModel>,
)
    ensures
        with_health(with_context(row, context), health) == with_context(
            with_health(row, health),
            context,
        ),
{
}

/// Every row but that of a CronJob is billed.
pub proof fn law_all_but_cron_jobs_are_billed(row: WorkloadModel)
    ensures
        billed(row) <==> row.workload_type != "CronJob"@,
        zero_row().usage.len() == 0,
{
}

/// An age is the number of whole days that have passed: as many as fit between the two
/// points in time, and none where the later comes first.
pub proof fn law_ages_are_whole_days(now: int, then: int)
    requires
        now - then < 0x1_0000_0000 * 86_400_000_000_000,
    ensures
        now < then ==> days_between(now, then) == 0,
        now >= then ==> days_between(now, then) * 86_400_000_000_000 <= now - then < (days_between(
            now,
            then,
        ) + 1) * 86_400_000_000_000,
{
}

/// A point in time is cut to the start of its second.
pub proof fn law_seconds_are_whole(nanosecond: int)
    ensures
        whole_second(nanosecond) <= nanosecond < whole_second(nanosecond) + 1_000_000_000,
        whole_second(nanosecond) % 1_000_000_000 == 0,
        whole_second(whole_second(nanosecond)) == whole_second(nanosecond),
{
}

/// Timestamps reach from the start of the year -9999 to the end of 9999, with room for
/// any offset from UTC: from 377705023201 seconds before the epoch to 253402207200 after.
pub proof fn law_timestamps_span_four_digit_years(nanosecond: int)
    ensures
        in_time_range(nanosecond) <==> -377_705_023_201 <= nanosecond / 1_000_000_000
            <= 253_402_207_200,
{
}

/// Texts that are strictly sorted come each after those before it, so none is twice there.
pub proof fn law_sorted_texts_come_in_order(s: Seq<Seq<char>>, i: int, j: int)
    requires
        strictly_sorted(s),
        0 <= i < j < s.len(),
    ensures
        precedes(s[i], s[j]),
        s[i] != s[j],
{
    crate::text::lemma_precedes_irreflexive(s[i]);
}

} // verus!
