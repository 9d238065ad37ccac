//! What holds of the rows of a snapshot, and of the namespaces that it is taken of.

use crate::autoscaler::listed;
use crate::json::{version_text, Json};
use crate::nodes::{first_provider, labels_of, pools_of, primary_region, Node};
use crate::pods::{recorded_for_pods, OwnerReference, PodListing};
use crate::snapshot::{
    activity_days, chosen_provider, cron_owners, event_days, failed_runs, is_snapshot, latest,
    metrics_read, not_excluded, provider_by_labels, recorded_for_events, recorded_for_workloads,
    targets, AgentSnapshot, ClusterListing, EventListing, Job, WorkloadListing,
};
use crate::text::views;
use crate::time::{days_between, Timestamp};
use crate::usage::pod_metrics;
use vstd::prelude::*;

verus! {

/// Where namespaces are included, exactly these are the targets, in their order.
pub proof fn law_included_namespaces_are_the_targets(
    include_names: Seq<Seq<char>>,
    exclude_names: Seq<Seq<char>>,
    names: Seq<Option<String>>,
)
    requires
        include_names.len() > 0,
    ensures
        targets(include_names, exclude_names, names) == include_names,
{
}

/// Where nothing is included, no target is anywhere in the exclude list, every listed
/// name that is nowhere in it is a target, and nothing else is.
pub proof fn law_excluded_namespaces_are_no_targets(
    exclude_names: Seq<Seq<char>>,
    names: Seq<Option<String>>,
)
    ensures
        forall|t: int, e: int|
            #![trigger targets(Seq::empty(), exclude_names, names)[t], exclude_names[e]]
            0 <= t < targets(Seq::empty(), exclude_names, names).len() && 0 <= e
                < exclude_names.len() ==> targets(Seq::empty(), exclude_names, names)[t]
                != exclude_names[e],
        forall|i: int|
            0 <= i < names.len() ==> ((#[trigger] names[i]) matches Some(name) ==> ((forall|e: int|
                0 <= e < exclude_names.len() ==> #[trigger] exclude_names[e] != name@)
                ==> targets(Seq::empty(), exclude_names, names).contains(name@))),
        forall|t: int|
            0 <= t < targets(Seq::empty(), exclude_names, names).len() ==> exists|i: int|
                0 <= i < names.len() && ((#[trigger] names[i]) matches Some(name) && name@
                    == #[trigger] targets(Seq::empty(), exclude_names, names)[t]),
    decreases names.len(),
{
    let kept = targets(Seq::empty(), exclude_names, names);
    assert(kept == not_excluded(exclude_names, names));
    if names.len() > 0 {
        let init = names.drop_last();
        let last = names.len() - 1;
        law_excluded_namespaces_are_no_targets(exclude_names, init);
        let before = targets(Seq::empty(), exclude_names, init);
        assert(before == not_excluded(exclude_names, init));
        assert forall|i: int| 0 <= i < init.len() implies init[i] == #[trigger] names[i] by {}
        assert forall|t: int, e: int|
            #![trigger kept[t], exclude_names[e]]
            0 <= t < kept.len() && 0 <= e < exclude_names.len() implies kept[t]
            != exclude_names[e] by {
            if t < before.len() {
                assert(kept[t] == before[t]);
            } else {
                assert(!exclude_names.contains(kept[t]));
            }
        }
        assert forall|i: int| 0 <= i < names.len() implies ((#[trigger] names[i]) matches Some(name)
            ==> ((forall|e: int|
            0 <= e < exclude_names.len() ==> #[trigger] exclude_names[e] != name@)
            ==> kept.contains(name@))) by {
            match names[i] {
                Some(name) => {
                    if forall|e: int|
                        0 <= e < exclude_names.len() ==> #[trigger] exclude_names[e] != name@ {
                        if i < last {
                            assert(init[i] == names[i]);
                            assert(before.contains(name@));
                            let t = choose|t: int| 0 <= t < before.len() && before[t] == name@;
                            assert(kept[t] == name@);
                        } else {
                            assert(kept[before.len() as int] == name@);
                        }
                    }
                },
                None => {},
            }
        }
        assert forall|t: int| 0 <= t < kept.len() implies exists|i: int|
            0 <= i < names.len() && ((#[trigger] names[i]) matches Some(name) && name@
                == #[trigger] kept[t]) by {
            if t < before.len() {
                assert(kept[t] == before[t]);
                let i = choose|i: int|
                    0 <= i < init.len() && ((#[trigger] init[i]) matches Some(name) && name@
                        == before[t]);
                assert(names[i] == init[i]);
            } else {
                assert(names[last] matches Some(name) && name@ == kept[t]);
            }
        }
    }
}

/// Targets come in the order of the listed names, and as often as they are listed: those
/// of two lists are the targets of the first, followed by those of the second.
pub proof fn law_targets_come_in_the_listed_order(
    exclude_names: Seq<Seq<char>>,
    a: Seq<Option<String>>,
    b: Seq<Option<String>>,
    name: String,
)
    ensures
        targets(Seq::empty(), exclude_names, a + b) == targets(Seq::empty(), exclude_names, a)
            + targets(Seq::empty(), exclude_names, b),
        !exclude_names.contains(name@) ==> targets(Seq::empty(), exclude_names, seq![Some(name)])
            == seq![name@],
    decreases b.len(),
{
    let one = seq![Some(name)];
    assert(one.drop_last() == Seq::<Option<String>>::empty());
    reveal_with_fuel(not_excluded, 2);
    if b.len() == 0 {
        assert(a + b == a);
        assert(not_excluded(exclude_names, a) + not_excluded(exclude_names, b) == not_excluded(
            exclude_names,
            a,
        ));
    } else {
        assert((a + b).drop_last() == a + b.drop_last());
        law_targets_come_in_the_listed_order(exclude_names, a, b.drop_last(), name);
        assert(not_excluded(exclude_names, a + b) == not_excluded(exclude_names, a) + not_excluded(
            exclude_names,
            b,
        ));
    }
}

/// The latest event is at most as old as any other and is one of them; the order of
/// events plays no part.
pub proof fn law_latest_event_is_the_latest(events: Seq<Option<Timestamp>>)
    ensures
        forall|i: int|
            0 <= i < events.len() ==> ((#[trigger] events[i]) matches Some(ts) ==> (latest(
                events,
            ) matches Some(t) && ts@ <= t)),
        latest(events) matches Some(t) ==> exists|i: int|
            0 <= i < events.len() && ((#[trigger] events[i]) matches Some(ts) && ts@ == t),
    decreases events.len(),
{
    if events.len() > 0 {
        let init = events.drop_last();
        let last = events.len() - 1;
        law_latest_event_is_the_latest(init);
        assert forall|i: int| 0 <= i < init.len() implies init[i] == #[trigger] events[i] by {}
        match latest(events) {
            Some(t) => {
                if events[last] matches Some(ts) && ts@ == t {
                } else {
                    assert(latest(init) == Some(t));
                    let i = choose|i: int|
                        0 <= i < init.len() && ((#[trigger] init[i]) matches Some(ts) && ts@ == t);
                    assert(events[i] == init[i]);
                }
            },
            None => {},
        }
    }
}

/// The latest event does not depend on the order in which events are listed.
pub proof fn law_latest_event_ignores_the_order(
    a: Seq<Option<Timestamp>>,
    b: Seq<Option<Timestamp>>,
)
    requires
        a.to_multiset() == b.to_multiset(),
    ensures
        latest(a) == latest(b),
{
    lemma_latest_at_most(a, b);
    lemma_latest_at_most(b, a);
}

proof fn lemma_latest_at_most(a: Seq<Option<Timestamp>>, b: Seq<Option<Timestamp>>)
    requires
        a.to_multiset() == b.to_multiset(),
    ensures
        latest(a) matches Some(s) ==> (latest(b) matches Some(t) && s <= t),
{
    a.to_multiset_ensures();
    b.to_multiset_ensures();
    law_latest_event_is_the_latest(a);
    law_latest_event_is_the_latest(b);
    match latest(a) {
        Some(s) => {
            let i = choose|i: int|
                0 <= i < a.len() && ((#[trigger] a[i]) matches Some(ts) && ts@ == s);
            vstd::seq_lib::to_multiset_contains(a, a[i]);
            vstd::seq_lib::to_multiset_contains(b, a[i]);
            assert(a.contains(a[i]));
            let j = choose|j: int| 0 <= j < b.len() && b[j] == a[i];
            assert(b[j] matches Some(ts) && ts@ == s);
        },
        None => {},
    }
}

/// The age of the events of a namespace is that of the latest; where none is known, or
/// events could not be listed, it is the largest number.
pub proof fn law_events_are_as_old_as_the_latest(
    events: Vec<Option<Timestamp>>,
    now: int,
    t: int,
)
    ensures
        latest(events@) == Some(t) ==> event_days(Some(events), now) == days_between(now, t),
        latest(events@) is None ==> event_days(Some(events), now) == u32::MAX,
        event_days(None, now) == u32::MAX,
{
}

/// A namespace was active when a pod or an event of it was last seen, whichever is more
/// recent; where neither is known, it counts as active now.
pub proof fn law_activity_is_the_more_recent_sign(pods: u32, events: u32)
    ensures
        activity_days(Some(pods), events) <= pods,
        activity_days(Some(pods), events) <= events,
        activity_days(None, events) <= events,
        pods <= events && pods != u32::MAX ==> activity_days(Some(pods), events) == pods,
        events <= pods && events != u32::MAX ==> activity_days(Some(pods), events) == events,
        events != u32::MAX ==> activity_days(None, events) == events,
        activity_days(None, u32::MAX) == 0,
        activity_days(Some(u32::MAX), u32::MAX) == 0,
{
}

/// Failed runs add up over Jobs: a Job counts once for each owner reference to the CronJob
/// where pods of it failed, and not at all where none did.
pub proof fn law_failed_runs_add_up(
    a: Seq<Job>,
    b: Seq<Job>,
    job: Job,
    name: Seq<char>,
)
    ensures
        failed_runs(a + b, name) == failed_runs(a, name) + failed_runs(b, name),
        failed_runs(Seq::empty(), name) == 0,
        (job.failed matches Some(n) && n > 0) ==> failed_runs(seq![job], name) == cron_owners(
            job.owners@,
            name,
        ),
        (job.failed matches Some(n) ==> n <= 0) ==> failed_runs(seq![job], name) == 0,
    decreases b.len(),
{
    assert(seq![job].drop_last() == Seq::<Job>::empty());
    reveal_with_fuel(failed_runs, 2);
    if b.len() == 0 {
        assert(a + b == a);
    } else {
        assert((a + b).drop_last() == a + b.drop_last());
        law_failed_runs_add_up(a, b.drop_last(), job, name);
    }
}

/// Whether an owner is the CronJob called `name`.
pub open spec fn cron_job_called(name: Seq<char>) -> spec_fn(OwnerReference) -> bool {
    |owner: OwnerReference| owner.kind@ == "CronJob"@ && owner.name@ == name
}

/// The references to a CronJob are the owners of this kind and this name.
pub proof fn law_cron_owners_are_of_that_kind_and_name(
    owners: Seq<OwnerReference>,
    name: Seq<char>,
)
    ensures
        cron_owners(owners, name) == owners.filter(cron_job_called(name)).len(),
    decreases owners.len(),
{
    reveal(Seq::filter);
    if owners.len() > 0 {
        law_cron_owners_are_of_that_kind_and_name(owners.drop_last(), name);
    }
}

/// The labels of a node tell its cloud: those of EKS come before that of GKE, and that
/// before the one of AKS. Other labels tell none.
pub proof fn law_labels_tell_the_cloud(labels: Map<Seq<char>, Seq<char>>)
    ensures
        ({
            let eks = labels.dom().contains("eks.amazonaws.com/nodegroup"@)
                || labels.dom().contains("alpha.eksctl.io/cluster-name"@);
            let gke = labels.dom().contains("cloud.google.com/gke-nodepool"@);
            let aks = labels.dom().contains("kubernetes.azure.com/agentpool"@);
            &&& eks ==> provider_by_labels(labels) == "AWS"@
            &&& !eks && gke ==> provider_by_labels(labels) == "GCP"@
            &&& !eks && !gke && aks ==> provider_by_labels(labels) == "Azure"@
            &&& !eks && !gke && !aks ==> provider_by_labels(labels).len() == 0
        }),
{
}

/// What is configured goes before what the provider ids say, and that before the labels
/// of the first node.
pub proof fn law_configured_provider_comes_first(
    configured: Seq<char>,
    from_ids: Seq<char>,
    nodes: Seq<Node>,
)
    ensures
        chosen_provider(Some(configured), from_ids, nodes) == configured,
        from_ids.len() > 0 ==> chosen_provider(None, from_ids, nodes) == from_ids,
        from_ids.len() == 0 && nodes.len() > 0 ==> chosen_provider(None, from_ids, nodes)
            == provider_by_labels(labels_of(nodes[0])),
        from_ids.len() == 0 && nodes.len() == 0 ==> chosen_provider(None, from_ids, nodes).len()
            == 0,
{
}

/// A snapshot names the cluster's version, its nodes, its provider, when it was taken and
/// by which version of the agent, whether metrics were there, and how long it took.
pub proof fn law_snapshot_says_what_it_was_taken_of(
    s: AgentSnapshot,
    c: ClusterListing,
    configured_provider: Option<Seq<char>>,
    now: int,
    collected_at: Seq<char>,
    elapsed_ms: u128,
    agent_version: Seq<char>,
)
    requires
        is_snapshot(s, c, configured_provider, now, collected_at, elapsed_ms, agent_version),
    ensures
        s.node_count == c.nodes@.len(),
        c.version is None ==> s.k8s_version@.len() == 0,
        c.version matches Some(v) ==> (match version_text(v) {
            Some(text) => s.k8s_version@ == text,
            None => s.k8s_version@.len() == 0,
        }),
        configured_provider matches Some(p) ==> s.cloud_provider@ == p,
        configured_provider is None && first_provider(c.nodes@).len() > 0 ==> s.cloud_provider@
            == first_provider(c.nodes@),
        configured_provider is None && first_provider(c.nodes@).len() == 0 && c.nodes@.len() > 0
            ==> s.cloud_provider@ == provider_by_labels(labels_of(c.nodes@[0])),
        s.collected_at@ == collected_at,
        s.agent_version@ == agent_version,
        s.metrics_available <==> c.pod_metrics is Some,
        elapsed_ms <= u32::MAX ==> s.collection_duration_ms == elapsed_ms,
        elapsed_ms > u32::MAX ==> s.collection_duration_ms == u32::MAX,
        primary_region(s.region@, c.nodes@),
        pools_of(s.node_pools@, c.nodes@),
{
}

/// The metrics of a pass are those of the metrics body, and none without it.
pub proof fn law_metrics_come_from_the_body(c: ClusterListing, body: Json)
    ensures
        c.pod_metrics == Some(body) ==> metrics_read(c) == pod_metrics(body),
        c.pod_metrics is None ==> metrics_read(c).dom() =~= Set::empty(),
{
}

/// Whether the list call about workloads that `subsystem` stands for failed.
pub open spec fn workload_call_failed(l: WorkloadListing, subsystem: Seq<char>) -> bool {
    ||| l.hpas is None && subsystem == "horizontalpodautoscalers"@
    ||| l.deployments is None && subsystem == "deployments"@
    ||| l.stateful_sets is None && subsystem == "statefulsets"@
    ||| l.daemon_sets is None && subsystem == "daemonsets"@
    ||| l.cron_jobs is None && subsystem == "cronjobs"@
    ||| l.jobs is None && subsystem == "jobs"@ && listed(l.cron_jobs).len() > 0
}

/// Whether the list call about pods that `subsystem` stands for failed.
pub open spec fn pod_call_failed(l: PodListing, subsystem: Seq<char>) -> bool {
    ||| l.replica_sets is None && subsystem == "replicasets"@
    ||| l.budgets is None && subsystem == "poddisruptionbudgets"@
    ||| l.pods is None && subsystem == "pods"@
}

proof fn lemma_recorded_for_pods(
    recorded: Set<Seq<char>>,
    listings: Seq<PodListing>,
    subsystem: Seq<char>,
)
    ensures
        recorded_for_pods(recorded, listings).contains(subsystem) <==> recorded.contains(subsystem)
            || exists|i: int|
            0 <= i < listings.len() && pod_call_failed(#[trigger] listings[i], subsystem),
    decreases listings.len(),
{
    if listings.len() > 0 {
        let init = listings.drop_last();
        let last = listings.len() - 1;
        lemma_recorded_for_pods(recorded, init, subsystem);
        if exists|i: int|
            0 <= i < init.len() && pod_call_failed(#[trigger] init[i], subsystem) {
            let i = choose|i: int|
                0 <= i < init.len() && pod_call_failed(#[trigger] init[i], subsystem);
            assert(pod_call_failed(listings[i], subsystem));
        }
        if exists|i: int|
            0 <= i < listings.len() && pod_call_failed(#[trigger] listings[i], subsystem) {
            let i = choose|i: int|
                0 <= i < listings.len() && pod_call_failed(#[trigger] listings[i], subsystem);
            if i < last {
                assert(pod_call_failed(init[i], subsystem));
            }
        }
        if pod_call_failed(listings[last], subsystem) {
            assert(recorded_for_pods(recorded, listings).contains(subsystem));
        }
    }
}

proof fn lemma_recorded_for_workloads(
    recorded: Set<Seq<char>>,
    listings: Seq<WorkloadListing>,
    subsystem: Seq<char>,
)
    ensures
        recorded_for_workloads(recorded, listings).contains(subsystem) <==> recorded.contains(
            subsystem,
        ) || exists|i: int|
            0 <= i < listings.len() && workload_call_failed(#[trigger] listings[i], subsystem),
    decreases listings.len(),
{
    if listings.len() > 0 {
        let init = listings.drop_last();
        let last = listings.len() - 1;
        lemma_recorded_for_workloads(recorded, init, subsystem);
        if exists|i: int|
            0 <= i < init.len() && workload_call_failed(#[trigger] init[i], subsystem) {
            let i = choose|i: int|
                0 <= i < init.len() && workload_call_failed(#[trigger] init[i], subsystem);
            assert(workload_call_failed(listings[i], subsystem));
        }
        if exists|i: int|
            0 <= i < listings.len() && workload_call_failed(#[trigger] listings[i], subsystem) {
            let i = choose|i: int|
                0 <= i < listings.len() && workload_call_failed(
                    #[trigger] listings[i],
                    subsystem,
                );
            if i < last {
                assert(workload_call_failed(init[i], subsystem));
            }
        }
        if workload_call_failed(listings[last], subsystem) {
            assert(recorded_for_workloads(recorded, listings).contains(subsystem));
        }
    }
}

proof fn lemma_recorded_for_events(
    recorded: Set<Seq<char>>,
    listings: Seq<EventListing>,
    subsystem: Seq<char>,
)
    ensures
        recorded_for_events(recorded, listings).contains(subsystem) <==> recorded.contains(
            subsystem,
        ) || (subsystem == "events"@ && exists|i: int|
            0 <= i < listings.len() && (#[trigger] listings[i]).events is None),
    decreases listings.len(),
{
    if listings.len() > 0 {
        let init = listings.drop_last();
        let last = listings.len() - 1;
        lemma_recorded_for_events(recorded, init, subsystem);
        if exists|i: int| 0 <= i < init.len() && (#[trigger] init[i]).events is None {
            let i = choose|i: int| 0 <= i < init.len() && (#[trigger] init[i]).events is None;
            assert(listings[i].events is None);
        }
        if exists|i: int| 0 <= i < listings.len() && (#[trigger] listings[i]).events is None {
            let i = choose|i: int|
                0 <= i < listings.len() && (#[trigger] listings[i]).events is None;
            if i < last {
                assert(init[i].events is None);
            }
        }
    }
}

/// A snapshot reports a subsystem as failed exactly where a call to it failed: the
/// metrics server, or a list call in any namespace. Jobs count only where there are
/// CronJobs.
pub proof fn law_exactly_the_failed_calls_are_reported(
    s: AgentSnapshot,
    c: ClusterListing,
    configured_provider: Option<Seq<char>>,
    now: int,
    collected_at: Seq<char>,
    elapsed_ms: u128,
    agent_version: Seq<char>,
    subsystem: Seq<char>,
)
    requires
        is_snapshot(s, c, configured_provider, now, collected_at, elapsed_ms, agent_version),
    ensures
        (exists|i: int|
            0 <= i < s.partial_failures@.len() && (#[trigger] s.partial_failures@[i])@ == subsystem)
            <==> {
            ||| c.pod_metrics is None && subsystem == "metrics-server"@
            ||| exists|i: int|
                0 <= i < c.pods@.len() && pod_call_failed(#[trigger] c.pods@[i], subsystem)
            ||| exists|i: int|
                0 <= i < c.workloads@.len() && workload_call_failed(
                    #[trigger] c.workloads@[i],
                    subsystem,
                )
            ||| subsystem == "events"@ && exists|i: int|
                0 <= i < c.events@.len() && (#[trigger] c.events@[i]).events is None
        },
{
    let start = match c.pod_metrics {
        Some(body) => Set::<Seq<char>>::empty(),
        None => Set::<Seq<char>>::empty().insert("metrics-server"@),
    };
    lemma_recorded_for_pods(start, c.pods@, subsystem);
    let after_pods = recorded_for_pods(start, c.pods@);
    lemma_recorded_for_workloads(after_pods, c.workloads@, subsystem);
    let after_workloads = recorded_for_workloads(after_pods, c.workloads@);
    lemma_recorded_for_events(after_workloads, c.events@, subsystem);
    let texts = views(s.partial_failures@);
    assert(texts.to_set().contains(subsystem) <==> texts.contains(subsystem));
    if texts.contains(subsystem) {
        let i = choose|i: int| 0 <= i < texts.len() && texts[i] == subsystem;
        assert(s.partial_failures@[i]@ == subsystem);
    }
    if exists|i: int|
        0 <= i < s.partial_failures@.len() && (#[trigger] s.partial_failures@[i])@ == subsystem {
        let i = choose|i: int|
            0 <= i < s.partial_failures@.len() && (#[trigger] s.partial_failures@[i])@
                == subsystem;
        assert(texts[i] == subsystem);
    }
}

} // verus!
