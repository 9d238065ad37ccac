//! What holds of the rows of a snapshot: there is one for every container of every listed
//! workload, and it tells of that container.

use crate::autoscaler::{contexts, listed};
use crate::nodes::{cpu_in, memory_in};
use crate::pod_laws::{
    all_pods_of, all_statuses, ended_by, first_class, guarded_at, kept_by,
    law_health_is_that_of_the_owned_pods, law_workload_has_the_strictest_budget_over_its_pods,
    owned_at,
};
use crate::pods::{health_by_workload, owners_by_pod, restarts, sightings};
use crate::snapshot::{
    all_rows, billed_rows, cron_row, failed_runs, is_snapshot, metrics_read, namespace_rows,
    replicas_of, rows_of_cron_job, rows_of_cron_jobs, rows_of_workload, rows_of_workloads,
    rows_right, usage_read, workload_row, AgentSnapshot, ClusterListing, CronJob, HealthByWorkload,
    UsageByContainer, Workload, WorkloadListing,
};
use crate::table::{keys_distinct, looked_up, map_of};
use crate::time::{days_between, utc_text};
use crate::usage::{readings, usage_by_container, ContainerMetric};
use crate::usage_laws::{
    law_pods_with_metrics_can_be_listed, law_usage_gathers_what_the_pods_report,
    pods_with_metrics, reports_together,
};
use crate::workload::{Container, WorkloadModel};
use vstd::multiset::Multiset;
use vstd::prelude::*;

verus! {

/// The types of workloads that a snapshot has rows of.
pub enum Kind {
    Deployment,
    StatefulSet,
    DaemonSet,
    CronJob,
}

/// The container that a row is of: the place of its listing, the type of its workload,
/// the workload's place among those of this type, and its own place in the workload.
pub struct Place {
    pub listing: int,
    pub kind: Kind,
    pub item: int,
    pub container: int,
}

/// How the wire schema calls a type of workload.
pub open spec fn called(kind: Kind) -> Seq<char> {
    match kind {
        Kind::Deployment => "Deployment"@,
        Kind::StatefulSet => "StatefulSet"@,
        Kind::DaemonSet => "DaemonSet"@,
        Kind::CronJob => "CronJob"@,
    }
}

/// The Deployments, StatefulSets or DaemonSets of a listing.
pub open spec fn workloads_of(l: WorkloadListing, kind: Kind) -> Seq<Workload> {
    match kind {
        Kind::Deployment => listed(l.deployments),
        Kind::StatefulSet => listed(l.stateful_sets),
        Kind::DaemonSet => listed(l.daemon_sets),
        Kind::CronJob => Seq::empty(),
    }
}

/// How many containers each workload of a type has.
pub open spec fn container_counts(l: WorkloadListing, kind: Kind) -> Seq<nat> {
    match kind {
        Kind::CronJob => Seq::new(
            listed(l.cron_jobs).len(),
            |i: int| listed(l.cron_jobs)[i].containers@.len(),
        ),
        _ => Seq::new(
            workloads_of(l, kind).len(),
            |i: int| workloads_of(l, kind)[i].containers@.len(),
        ),
    }
}

/// The places of the containers of one workload.
pub open spec fn container_places(listing: int, kind: Kind, item: int, count: nat) -> Seq<Place> {
    Seq::new(count, |container: int| Place { listing, kind, item, container })
}

/// The places of the containers of the workloads of one type.
pub open spec fn item_places(listing: int, kind: Kind, counts: Seq<nat>) -> Seq<Place>
    decreases counts.len(),
{
    if counts.len() == 0 {
        Seq::empty()
    } else {
        item_places(listing, kind, counts.drop_last()) + container_places(
            listing,
            kind,
            counts.len() - 1,
            counts.last(),
        )
    }
}

/// The places of the containers of a listing that are billed.
pub open spec fn billed_places(listing: int, l: WorkloadListing) -> Seq<Place> {
    item_places(listing, Kind::Deployment, container_counts(l, Kind::Deployment)) + item_places(
        listing,
        Kind::StatefulSet,
        container_counts(l, Kind::StatefulSet),
    ) + item_places(listing, Kind::DaemonSet, container_counts(l, Kind::DaemonSet))
}

/// The places of the containers of a listing.
pub open spec fn listing_places(listing: int, l: WorkloadListing) -> Seq<Place> {
    billed_places(listing, l) + item_places(
        listing,
        Kind::CronJob,
        container_counts(l, Kind::CronJob),
    )
}

/// The places of all containers, in order.
pub open spec fn places(listings: Seq<WorkloadListing>) -> Seq<Place>
    decreases listings.len(),
{
    if listings.len() == 0 {
        Seq::empty()
    } else {
        places(listings.drop_last()) + listing_places(listings.len() - 1, listings.last())
    }
}

/// The workload that a place is in.
pub open spec fn workload_at(listings: Seq<WorkloadListing>, at: Place) -> Workload {
    workloads_of(listings[at.listing], at.kind)[at.item]
}

/// The CronJob that a place is in.
pub open spec fn cron_job_at(listings: Seq<WorkloadListing>, at: Place) -> CronJob {
    listed(listings[at.listing].cron_jobs)[at.item]
}

/// The name of the workload that a place is in, empty where it has none.
pub open spec fn name_at(listings: Seq<WorkloadListing>, at: Place) -> Seq<char> {
    let name = match at.kind {
        Kind::CronJob => cron_job_at(listings, at).name,
        _ => workload_at(listings, at).name,
    };
    match name {
        Some(n) => n@,
        None => Seq::empty(),
    }
}

/// The container at a place.
pub open spec fn container_at(listings: Seq<WorkloadListing>, at: Place) -> Container {
    match at.kind {
        Kind::CronJob => cron_job_at(listings, at).containers@[at.container],
        _ => workload_at(listings, at).containers@[at.container],
    }
}

/// The namespace, the type and the name of the workload that a place is in.
pub open spec fn workload_key_at(listings: Seq<WorkloadListing>, at: Place) -> (
    Seq<char>,
    Seq<char>,
    Seq<char>,
) {
    (listings[at.listing].namespace@, called(at.kind), name_at(listings, at))
}

/// Whether there is a container at a place.
pub open spec fn is_place(listings: Seq<WorkloadListing>, at: Place) -> bool {
    &&& 0 <= at.listing < listings.len()
    &&& 0 <= at.item < container_counts(listings[at.listing], at.kind).len()
    &&& 0 <= at.container < container_counts(listings[at.listing], at.kind)[at.item]
}

/// The row of the container at a place.
spec fn row_at(
    listings: Seq<WorkloadListing>,
    at: Place,
    node_count: u32,
    now: int,
    health: HealthByWorkload,
    usage: UsageByContainer,
) -> WorkloadModel {
    let l = listings[at.listing];
    match at.kind {
        Kind::CronJob => cron_row(
            l.namespace@,
            cron_job_at(listings, at),
            container_at(listings, at),
            now,
            listed(l.jobs),
        ),
        _ => {
            let w = workload_at(listings, at);
            workload_row(
                l.namespace@,
                called(at.kind),
                w,
                container_at(listings, at),
                replicas_of(
                    w,
                    if at.kind is DaemonSet {
                        Some(node_count)
                    } else {
                        None
                    },
                ),
                now,
                if at.kind is DaemonSet {
                    Map::empty()
                } else {
                    contexts(listed(l.hpas), listed(l.scaled_objects))
                },
                health,
                usage,
            )
        },
    }
}

/// Whether `rows` are those of the containers at the places `at`.
spec fn follow(
    rows: Seq<WorkloadModel>,
    at: Seq<Place>,
    listings: Seq<WorkloadListing>,
    node_count: u32,
    now: int,
    health: HealthByWorkload,
    usage: UsageByContainer,
) -> bool {
    &&& rows.len() == at.len()
    &&& forall|k: int|
        0 <= k < rows.len() ==> #[trigger] rows[k] == row_at(
            listings,
            at[k],
            node_count,
            now,
            health,
            usage,
        ) && is_place(listings, at[k])
}

proof fn lemma_follow_on(
    a: Seq<WorkloadModel>,
    p: Seq<Place>,
    b: Seq<WorkloadModel>,
    q: Seq<Place>,
    listings: Seq<WorkloadListing>,
    node_count: u32,
    now: int,
    health: HealthByWorkload,
    usage: UsageByContainer,
)
    requires
        follow(a, p, listings, node_count, now, health, usage),
        follow(b, q, listings, node_count, now, health, usage),
    ensures
        follow(a + b, p + q, listings, node_count, now, health, usage),
{
    let rows = a + b;
    let at = p + q;
    assert forall|k: int| 0 <= k < rows.len() implies #[trigger] rows[k] == row_at(
        listings,
        at[k],
        node_count,
        now,
        health,
        usage,
    ) && is_place(listings, at[k]) by {
        if k < a.len() {
            assert(rows[k] == a[k]);
            assert(at[k] == p[k]);
        } else {
            assert(rows[k] == b[k - a.len()]);
            assert(at[k] == q[k - a.len()]);
        }
    }
}

proof fn lemma_items_follow(
    listings: Seq<WorkloadListing>,
    listing: int,
    kind: Kind,
    n: nat,
    node_count: u32,
    now: int,
    health: HealthByWorkload,
    usage: UsageByContainer,
)
    requires
        0 <= listing < listings.len(),
        kind !is CronJob,
        n <= workloads_of(listings[listing], kind).len(),
    ensures
        follow(
            rows_of_workloads(
                listings[listing].namespace@,
                called(kind),
                workloads_of(listings[listing], kind).take(n as int),
                if kind is DaemonSet {
                    Some(node_count)
                } else {
                    None
                },
                now,
                if kind is DaemonSet {
                    Map::empty()
                } else {
                    contexts(
                        listed(listings[listing].hpas),
                        listed(listings[listing].scaled_objects),
                    )
                },
                health,
                usage,
            ),
            item_places(
                listing,
                kind,
                container_counts(listings[listing], kind).take(n as int),
            ),
            listings,
            node_count,
            now,
            health,
            usage,
        ),
    decreases n,
{
    let l = listings[listing];
    let items = workloads_of(l, kind);
    let counts = container_counts(l, kind);
    let fixed = if kind is DaemonSet {
        Some(node_count)
    } else {
        None
    };
    let scaling = if kind is DaemonSet {
        Map::empty()
    } else {
        contexts(listed(l.hpas), listed(l.scaled_objects))
    };
    if n > 0 {
        let m = (n - 1) as nat;
        lemma_items_follow(listings, listing, kind, m, node_count, now, health, usage);
        assert(items.take(n as int).drop_last() == items.take(m as int));
        assert(counts.take(n as int).drop_last() == counts.take(m as int));
        let w = items[m as int];
        assert(items.take(n as int).last() == w);
        let these = rows_of_workload(
            l.namespace@,
            called(kind),
            w,
            fixed,
            now,
            scaling,
            health,
            usage,
        );
        let here = container_places(listing, kind, m as int, counts[m as int]);
        assert(counts[m as int] == w.containers@.len());
        assert(counts.take(n as int).last() == counts[m as int]);
        assert(follow(these, here, listings, node_count, now, health, usage)) by {
            assert forall|k: int| 0 <= k < these.len() implies #[trigger] these[k] == row_at(
                listings,
                here[k],
                node_count,
                now,
                health,
                usage,
            ) && is_place(listings, here[k]) by {
                assert(here[k] == (Place { listing, kind, item: m as int, container: k }));
                assert(workload_at(listings, here[k]) == w);
            }
        }
        lemma_follow_on(
            rows_of_workloads(
                l.namespace@,
                called(kind),
                items.take(m as int),
                fixed,
                now,
                scaling,
                health,
                usage,
            ),
            item_places(listing, kind, counts.take(m as int)),
            these,
            here,
            listings,
            node_count,
            now,
            health,
            usage,
        );
    }
}

proof fn lemma_cron_jobs_follow(
    listings: Seq<WorkloadListing>,
    listing: int,
    n: nat,
    node_count: u32,
    now: int,
    health: HealthByWorkload,
    usage: UsageByContainer,
)
    requires
        0 <= listing < listings.len(),
        n <= listed(listings[listing].cron_jobs).len(),
    ensures
        follow(
            rows_of_cron_jobs(
                listings[listing].namespace@,
                listed(listings[listing].cron_jobs).take(n as int),
                now,
                listed(listings[listing].jobs),
            ),
            item_places(
                listing,
                Kind::CronJob,
                container_counts(listings[listing], Kind::CronJob).take(n as int),
            ),
            listings,
            node_count,
            now,
            health,
            usage,
        ),
    decreases n,
{
    let l = listings[listing];
    let items = listed(l.cron_jobs);
    let counts = container_counts(l, Kind::CronJob);
    if n > 0 {
        let m = (n - 1) as nat;
        lemma_cron_jobs_follow(listings, listing, m, node_count, now, health, usage);
        assert(items.take(n as int).drop_last() == items.take(m as int));
        assert(counts.take(n as int).drop_last() == counts.take(m as int));
        let cj = items[m as int];
        assert(items.take(n as int).last() == cj);
        let these = rows_of_cron_job(l.namespace@, cj, now, listed(l.jobs));
        let here = container_places(listing, Kind::CronJob, m as int, counts[m as int]);
        assert(counts[m as int] == cj.containers@.len());
        assert(counts.take(n as int).last() == counts[m as int]);
        assert(follow(these, here, listings, node_count, now, health, usage)) by {
            assert forall|k: int| 0 <= k < these.len() implies #[trigger] these[k] == row_at(
                listings,
                here[k],
                node_count,
                now,
                health,
                usage,
            ) && is_place(listings, here[k]) by {
                assert(here[k] == (Place {
                    listing,
                    kind: Kind::CronJob,
                    item: m as int,
                    container: k,
                }));
                assert(cron_job_at(listings, here[k]) == cj);
            }
        }
        lemma_follow_on(
            rows_of_cron_jobs(l.namespace@, items.take(m as int), now, listed(l.jobs)),
            item_places(listing, Kind::CronJob, counts.take(m as int)),
            these,
            here,
            listings,
            node_count,
            now,
            health,
            usage,
        );
    }
}

proof fn lemma_listing_follows(
    listings: Seq<WorkloadListing>,
    listing: int,
    node_count: u32,
    now: int,
    health: HealthByWorkload,
    usage: UsageByContainer,
)
    requires
        0 <= listing < listings.len(),
    ensures
        follow(
            billed_rows(listings[listing], node_count, now, health, usage),
            billed_places(listing, listings[listing]),
            listings,
            node_count,
            now,
            health,
            usage,
        ),
        follow(
            namespace_rows(listings[listing], node_count, now, health, usage),
            listing_places(listing, listings[listing]),
            listings,
            node_count,
            now,
            health,
            usage,
        ),
{
    let l = listings[listing];
    let d = listed(l.deployments);
    let s = listed(l.stateful_sets);
    let a = listed(l.daemon_sets);
    let j = listed(l.cron_jobs);
    lemma_items_follow(
        listings,
        listing,
        Kind::Deployment,
        d.len(),
        node_count,
        now,
        health,
        usage,
    );
    lemma_items_follow(
        listings,
        listing,
        Kind::StatefulSet,
        s.len(),
        node_count,
        now,
        health,
        usage,
    );
    lemma_items_follow(
        listings,
        listing,
        Kind::DaemonSet,
        a.len(),
        node_count,
        now,
        health,
        usage,
    );
    lemma_cron_jobs_follow(listings, listing, j.len(), node_count, now, health, usage);
    assert(d.take(d.len() as int) == d);
    assert(s.take(s.len() as int) == s);
    assert(a.take(a.len() as int) == a);
    assert(j.take(j.len() as int) == j);
    let dc = container_counts(l, Kind::Deployment);
    let sc = container_counts(l, Kind::StatefulSet);
    let ac = container_counts(l, Kind::DaemonSet);
    let jc = container_counts(l, Kind::CronJob);
    assert(dc.take(d.len() as int) == dc);
    assert(sc.take(s.len() as int) == sc);
    assert(ac.take(a.len() as int) == ac);
    assert(jc.take(j.len() as int) == jc);
    let scaling = contexts(listed(l.hpas), listed(l.scaled_objects));
    let dr = rows_of_workloads(
        l.namespace@,
        "Deployment"@,
        d,
        None,
        now,
        scaling,
        health,
        usage,
    );
    let sr = rows_of_workloads(
        l.namespace@,
        "StatefulSet"@,
        s,
        None,
        now,
        scaling,
        health,
        usage,
    );
    let ar = rows_of_workloads(
        l.namespace@,
        "DaemonSet"@,
        a,
        Some(node_count),
        now,
        Map::empty(),
        health,
        usage,
    );
    let dp = item_places(listing, Kind::Deployment, dc);
    let sp = item_places(listing, Kind::StatefulSet, sc);
    let ap = item_places(listing, Kind::DaemonSet, ac);
    lemma_follow_on(dr, dp, sr, sp, listings, node_count, now, health, usage);
    lemma_follow_on(dr + sr, dp + sp, ar, ap, listings, node_count, now, health, usage);
    lemma_follow_on(
        billed_rows(l, node_count, now, health, usage),
        billed_places(listing, l),
        rows_of_cron_jobs(l.namespace@, j, now, listed(l.jobs)),
        item_places(listing, Kind::CronJob, jc),
        listings,
        node_count,
        now,
        health,
        usage,
    );
}

proof fn lemma_rows_follow(
    listings: Seq<WorkloadListing>,
    n: nat,
    node_count: u32,
    now: int,
    health: HealthByWorkload,
    usage: UsageByContainer,
)
    requires
        n <= listings.len(),
    ensures
        follow(
            all_rows(listings.take(n as int), node_count, now, health, usage),
            places(listings.take(n as int)),
            listings,
            node_count,
            now,
            health,
            usage,
        ),
    decreases n,
{
    if n > 0 {
        let m = (n - 1) as nat;
        lemma_rows_follow(listings, m, node_count, now, health, usage);
        lemma_listing_follows(listings, m as int, node_count, now, health, usage);
        assert(listings.take(n as int).drop_last() == listings.take(m as int));
        assert(listings.take(n as int).last() == listings[m as int]);
        lemma_follow_on(
            all_rows(listings.take(m as int), node_count, now, health, usage),
            places(listings.take(m as int)),
            namespace_rows(listings[m as int], node_count, now, health, usage),
            listing_places(m as int, listings[m as int]),
            listings,
            node_count,
            now,
            health,
            usage,
        );
    }
}

/// There are as many rows as places, over all listings and over the billed part of the
/// last.
pub(crate) proof fn lemma_places_are_rows(
    listings: Seq<WorkloadListing>,
    node_count: u32,
    now: int,
    health: HealthByWorkload,
    usage: UsageByContainer,
)
    ensures
        all_rows(listings, node_count, now, health, usage).len() == places(listings).len(),
        listings.len() > 0 ==> billed_rows(listings.last(), node_count, now, health, usage).len()
            == billed_places(listings.len() - 1, listings.last()).len(),
{
    lemma_rows_follow(listings, listings.len(), node_count, now, health, usage);
    assert(listings.take(listings.len() as int) == listings);
    if listings.len() > 0 {
        lemma_listing_follows(listings, listings.len() - 1, node_count, now, health, usage);
    }
}

proof fn lemma_row(
    s: AgentSnapshot,
    c: ClusterListing,
    now: int,
    usage: UsageByContainer,
    k: int,
)
    requires
        rows_right(s, c, now, usage),
    ensures
        s.workloads@.len() == places(c.workloads@).len(),
        0 <= k < s.workloads@.len() ==> is_place(c.workloads@, places(c.workloads@)[k])
            && s.workloads@[k].deep_view() == row_at(
            c.workloads@,
            places(c.workloads@)[k],
            c.nodes@.len() as u32,
            now,
            health_by_workload(sightings(c.pods@)),
            usage,
        ),
{
    let node_count = c.nodes@.len() as u32;
    let health = health_by_workload(sightings(c.pods@));
    lemma_rows_follow(c.workloads@, c.workloads@.len(), node_count, now, health, usage);
    assert(c.workloads@.take(c.workloads@.len() as int) == c.workloads@);
    assert(s.workloads.deep_view().len() == s.workloads@.len());
    if 0 <= k < s.workloads@.len() {
        assert(s.workloads.deep_view()[k] == s.workloads@[k].deep_view());
        assert(all_rows(c.workloads@, node_count, now, health, usage)[k] == row_at(
            c.workloads@,
            places(c.workloads@)[k],
            node_count,
            now,
            health,
            usage,
        ));
    }
}

/// A snapshot has one row for every container of every listed workload, in order: by
/// namespace, Deployments before StatefulSets before DaemonSets before CronJobs. The row
/// has the container's namespace, type, workload and name.
pub proof fn law_every_container_has_its_row(
    s: AgentSnapshot,
    c: ClusterListing,
    configured_provider: Option<Seq<char>>,
    now: int,
    collected_at: Seq<char>,
    elapsed_ms: u128,
    agent_version: Seq<char>,
    k: int,
)
    requires
        is_snapshot(s, c, configured_provider, now, collected_at, elapsed_ms, agent_version),
    ensures
        s.workloads@.len() == places(c.workloads@).len(),
        0 <= k < s.workloads@.len() ==> {
            let at = places(c.workloads@)[k];
            let row = s.workloads@[k];
            &&& is_place(c.workloads@, at)
            &&& row.namespace@ == c.workloads@[at.listing].namespace@
            &&& row.workload_type@ == called(at.kind)
            &&& row.workload_name@ == name_at(c.workloads@, at)
            &&& row.container_name@ == container_at(c.workloads@, at).name@
        },
{
    let usage = choose|usage: UsageByContainer|
        usage_read(usage, c) && #[trigger] rows_right(s, c, now, usage);
    lemma_row(s, c, now, usage, k);
}

/// A row has the replicas that its workload asks for: one where it does not say, and as
/// many as there are nodes for a DaemonSet; a CronJob has one. A negative number is read
/// as the unsigned one of the same 32 bits.
pub proof fn law_rows_have_the_replicas_of_their_workload(
    s: AgentSnapshot,
    c: ClusterListing,
    configured_provider: Option<Seq<char>>,
    now: int,
    collected_at: Seq<char>,
    elapsed_ms: u128,
    agent_version: Seq<char>,
    k: int,
)
    requires
        is_snapshot(s, c, configured_provider, now, collected_at, elapsed_ms, agent_version),
        0 <= k < s.workloads@.len(),
    ensures
        match places(c.workloads@)[k].kind {
            Kind::CronJob => s.workloads@[k].replicas == 1,
            Kind::DaemonSet => s.workloads@[k].replicas == c.nodes@.len(),
            _ => match workload_at(c.workloads@, places(c.workloads@)[k]).replicas {
                None => s.workloads@[k].replicas == 1,
                Some(n) => s.workloads@[k].replicas == if n >= 0 {
                    n as int
                } else {
                    n + 0x1_0000_0000
                },
            },
        },
{
    let usage = choose|usage: UsageByContainer|
        usage_read(usage, c) && #[trigger] rows_right(s, c, now, usage);
    lemma_row(s, c, now, usage, k);
}

/// A row tells how many days ago its workload was created, zero where that is unknown,
/// and what its container requests and is limited to.
pub proof fn law_rows_have_the_age_and_resources_of_their_container(
    s: AgentSnapshot,
    c: ClusterListing,
    configured_provider: Option<Seq<char>>,
    now: int,
    collected_at: Seq<char>,
    elapsed_ms: u128,
    agent_version: Seq<char>,
    k: int,
)
    requires
        is_snapshot(s, c, configured_provider, now, collected_at, elapsed_ms, agent_version),
        0 <= k < s.workloads@.len(),
    ensures
        ({
            let at = places(c.workloads@)[k];
            let row = s.workloads@[k];
            let created = match at.kind {
                Kind::CronJob => cron_job_at(c.workloads@, at).created,
                _ => workload_at(c.workloads@, at).created,
            };
            &&& match created {
                Some(ts) => row.observation_days == days_between(now, ts@),
                None => row.observation_days == 0,
            }
            &&& match container_at(c.workloads@, at).resources {
                Some(r) => {
                    &&& row.cpu_request_m == cpu_in(r.requests)
                    &&& row.memory_request_mi == memory_in(r.requests)
                    &&& row.cpu_limit_m == cpu_in(r.limits)
                    &&& row.memory_limit_mi == memory_in(r.limits)
                },
                None => {
                    &&& row.cpu_request_m == 0
                    &&& row.memory_request_mi == 0
                    &&& row.cpu_limit_m == 0
                    &&& row.memory_limit_mi == 0
                },
            }
        }),
{
    let usage = choose|usage: UsageByContainer|
        usage_read(usage, c) && #[trigger] rows_right(s, c, now, usage);
    lemma_row(s, c, now, usage, k);
}

/// The usage on the row of a container is, in some order, what the metrics server
/// reports under the container's name for the pods of the namespace whose owner is the
/// workload, whether that is a Deployment, a StatefulSet or a DaemonSet. The row of a
/// CronJob has none.
pub proof fn law_rows_have_the_usage_of_the_pods_of_their_workload(
    s: AgentSnapshot,
    c: ClusterListing,
    configured_provider: Option<Seq<char>>,
    now: int,
    collected_at: Seq<char>,
    elapsed_ms: u128,
    agent_version: Seq<char>,
    k: int,
    pods: Seq<(Seq<char>, Seq<char>)>,
)
    requires
        is_snapshot(s, c, configured_provider, now, collected_at, elapsed_ms, agent_version),
        0 <= k < s.workloads@.len(),
    ensures
        places(c.workloads@)[k].kind is CronJob ==> s.workloads@[k].usage@.len() == 0,
        places(c.workloads@)[k].kind !is CronJob && pods_with_metrics(
            pods,
            metrics_read(c),
            owners_by_pod(sightings(c.pods@)),
            workload_key_at(c.workloads@, places(c.workloads@)[k]),
        ) ==> s.workloads@[k].usage.deep_view().to_multiset() == reports_together(
            metrics_read(c),
            pods,
            container_at(c.workloads@, places(c.workloads@)[k]).name@,
        ),
        exists|all: Seq<(Seq<char>, Seq<char>)>| #[trigger]
            pods_with_metrics(
                all,
                metrics_read(c),
                owners_by_pod(sightings(c.pods@)),
                workload_key_at(c.workloads@, places(c.workloads@)[k]),
            ),
{
    let usage = choose|usage: UsageByContainer|
        usage_read(usage, c) && #[trigger] rows_right(s, c, now, usage);
    lemma_row(s, c, now, usage, k);
    let owners = owners_by_pod(sightings(c.pods@));
    let entries = choose|entries: Seq<((String, String), Vec<ContainerMetric>)>|
        keys_distinct(entries) && #[trigger] map_of(entries) == metrics_read(c) && usage
            == usage_by_container(readings(entries, owners));
    let at = places(c.workloads@)[k];
    let workload = workload_key_at(c.workloads@, at);
    let name = container_at(c.workloads@, at).name@;
    law_pods_with_metrics_can_be_listed(entries, owners, workload);
    let row = s.workloads@[k].deep_view();
    assert(row.usage == s.workloads@[k].usage.deep_view());
    assert(row.usage.len() == s.workloads@[k].usage@.len());
    if at.kind !is CronJob && pods_with_metrics(pods, metrics_read(c), owners, workload) {
        let key = (workload.0, workload.1, workload.2, name);
        law_usage_gathers_what_the_pods_report(entries, owners, key, pods);
        if looked_up(usage, key) is None {
            row.usage.to_multiset_ensures();
            assert(row.usage.to_multiset() =~= Multiset::empty());
        }
    }
}

/// The guardrails on the row of a Deployment, StatefulSet or DaemonSet are those of the
/// pods that the workload owns: its kills for want of memory are the container statuses
/// of these pods whose last termination has the reason `OOMKilled`, and so with its
/// restarts and its class. Without such pods, and on the row of a CronJob, there are none.
pub proof fn law_rows_have_the_health_of_the_pods_of_their_workload(
    s: AgentSnapshot,
    c: ClusterListing,
    configured_provider: Option<Seq<char>>,
    now: int,
    collected_at: Seq<char>,
    elapsed_ms: u128,
    agent_version: Seq<char>,
    k: int,
)
    requires
        is_snapshot(s, c, configured_provider, now, collected_at, elapsed_ms, agent_version),
        0 <= k < s.workloads@.len(),
    ensures
        ({
            let row = s.workloads@[k];
            let pods = all_pods_of(
                c.pods@,
                workload_key_at(c.workloads@, places(c.workloads@)[k]),
            );
            if places(c.workloads@)[k].kind is CronJob {
                &&& row.oom_killed_count == 0
                &&& row.restart_count == 0
                &&& row.qos_class@.len() == 0
                &&& !row.has_pdb
                &&& row.pdb_min_available == 0
            } else {
                &&& row.oom_killed_count as int == all_statuses(pods).filter(
                    ended_by("OOMKilled"@),
                ).len() as int % 0x1_0000_0000
                &&& row.restart_count as int == restarts(all_statuses(pods)) as int % 0x1_0000_0000
                &&& first_class(row.qos_class@, pods)
            }
        }),
{
    let usage = choose|usage: UsageByContainer|
        usage_read(usage, c) && #[trigger] rows_right(s, c, now, usage);
    lemma_row(s, c, now, usage, k);
    let key = workload_key_at(c.workloads@, places(c.workloads@)[k]);
    law_health_is_that_of_the_owned_pods(c.pods@, key);
    let pods = all_pods_of(c.pods@, key);
    if pods.len() == 0 {
        reveal(Seq::filter);
        assert(all_statuses(pods).len() == 0);
    }
    assert(s.workloads@[k].deep_view().qos_class == s.workloads@[k].qos_class@);
}

/// The row of a Deployment, StatefulSet or DaemonSet has a disruption budget exactly where
/// one guards a pod of the workload, and as many pods must stay as the strictest keeps.
pub proof fn law_rows_have_the_strictest_budget_over_the_pods_of_their_workload(
    s: AgentSnapshot,
    c: ClusterListing,
    configured_provider: Option<Seq<char>>,
    now: int,
    collected_at: Seq<char>,
    elapsed_ms: u128,
    agent_version: Seq<char>,
    k: int,
)
    requires
        is_snapshot(s, c, configured_provider, now, collected_at, elapsed_ms, agent_version),
        0 <= k < s.workloads@.len(),
        places(c.workloads@)[k].kind !is CronJob,
        all_pods_of(c.pods@, workload_key_at(c.workloads@, places(c.workloads@)[k])).len() > 0,
    ensures
        forall|l: int, p: int, b: int| #[trigger]
            owned_at(
                c.pods@,
                workload_key_at(c.workloads@, places(c.workloads@)[k]),
                l,
                p,
            ) && #[trigger] guarded_at(c.pods@, l, p, b) ==> s.workloads@[k].has_pdb && kept_by(
                listed(c.pods@[l].budgets)[b],
            ) <= s.workloads@[k].pdb_min_available,
        s.workloads@[k].has_pdb ==> exists|l: int, p: int, b: int| #[trigger]
            owned_at(
                c.pods@,
                workload_key_at(c.workloads@, places(c.workloads@)[k]),
                l,
                p,
            ) && #[trigger] guarded_at(c.pods@, l, p, b) && kept_by(listed(c.pods@[l].budgets)[b])
                == s.workloads@[k].pdb_min_available,
        !s.workloads@[k].has_pdb ==> s.workloads@[k].pdb_min_available == 0,
{
    let usage = choose|usage: UsageByContainer|
        usage_read(usage, c) && #[trigger] rows_right(s, c, now, usage);
    lemma_row(s, c, now, usage, k);
    let key = workload_key_at(c.workloads@, places(c.workloads@)[k]);
    law_health_is_that_of_the_owned_pods(c.pods@, key);
    law_workload_has_the_strictest_budget_over_its_pods(c.pods@, key);
    let health = health_by_workload(sightings(c.pods@))[key];
    assert(s.workloads@[k].has_pdb == health.has_pdb);
    assert(s.workloads@[k].pdb_min_available == health.pdb_min_available);
}

/// A row has the autoscalers of its workload, which are those of its own listing that
/// target its type and name; none without one, and none for DaemonSets and CronJobs.
pub proof fn law_rows_have_the_autoscalers_of_their_workload(
    s: AgentSnapshot,
    c: ClusterListing,
    configured_provider: Option<Seq<char>>,
    now: int,
    collected_at: Seq<char>,
    elapsed_ms: u128,
    agent_version: Seq<char>,
    k: int,
)
    requires
        is_snapshot(s, c, configured_provider, now, collected_at, elapsed_ms, agent_version),
        0 <= k < s.workloads@.len(),
    ensures
        ({
            let at = places(c.workloads@)[k];
            let l = c.workloads@[at.listing];
            let scaling = contexts(listed(l.hpas), listed(l.scaled_objects));
            let row = s.workloads@[k];
            let key = (called(at.kind), name_at(c.workloads@, at));
            if (at.kind is Deployment || at.kind is StatefulSet) && scaling.dom().contains(key) {
                &&& row.has_hpa == scaling[key].has_hpa
                &&& row.hpa_min_replicas == scaling[key].hpa_min_replicas
                &&& row.hpa_max_replicas == scaling[key].hpa_max_replicas
                &&& row.hpa_target_cpu_pct == scaling[key].hpa_target_cpu_pct
                &&& row.hpa_current_replicas == scaling[key].hpa_current_replicas
                &&& row.keda_scaled == scaling[key].keda_scaled
                &&& row.keda_min_replicas == scaling[key].keda_min_replicas
                &&& row.keda_trigger_types@ == scaling[key].keda_trigger_types
            } else {
                &&& !row.has_hpa
                &&& row.hpa_min_replicas == 0
                &&& row.hpa_max_replicas == 0
                &&& row.hpa_target_cpu_pct == 0
                &&& row.hpa_current_replicas == 0
                &&& !row.keda_scaled
                &&& row.keda_min_replicas == 0
                &&& row.keda_trigger_types@.len() == 0
            }
        }),
{
    let usage = choose|usage: UsageByContainer|
        usage_read(usage, c) && #[trigger] rows_right(s, c, now, usage);
    lemma_row(s, c, now, usage, k);
    assert(s.workloads@[k].deep_view().keda_trigger_types == s.workloads@[k].keda_trigger_types@);
}

/// The row of a CronJob tells whether it is suspended, when it last ran and how many of
/// its Jobs failed; other rows have nothing there.
pub proof fn law_cron_rows_have_the_runs_of_their_cron_job(
    s: AgentSnapshot,
    c: ClusterListing,
    configured_provider: Option<Seq<char>>,
    now: int,
    collected_at: Seq<char>,
    elapsed_ms: u128,
    agent_version: Seq<char>,
    k: int,
)
    requires
        is_snapshot(s, c, configured_provider, now, collected_at, elapsed_ms, agent_version),
        0 <= k < s.workloads@.len(),
    ensures
        ({
            let at = places(c.workloads@)[k];
            let row = s.workloads@[k];
            if at.kind is CronJob {
                let cj = cron_job_at(c.workloads@, at);
                let jobs = listed(c.workloads@[at.listing].jobs);
                &&& row.cronjob_suspended <==> (cj.suspend matches Some(yes) && yes)
                &&& match cj.last_schedule {
                    Some(ts) => row.cronjob_last_schedule_ts@ == utc_text(
                        ts@,
                        "%Y-%m-%dT%H:%M:%SZ"@,
                    ),
                    None => row.cronjob_last_schedule_ts@.len() == 0,
                }
                &&& row.cronjob_recent_failures as int == failed_runs(
                    jobs,
                    name_at(c.workloads@, at),
                ) as int % 0x1_0000_0000
            } else {
                &&& !row.cronjob_suspended
                &&& row.cronjob_last_schedule_ts@.len() == 0
                &&& row.cronjob_recent_failures == 0
            }
        }),
{
    let usage = choose|usage: UsageByContainer|
        usage_read(usage, c) && #[trigger] rows_right(s, c, now, usage);
    lemma_row(s, c, now, usage, k);
    assert(s.workloads@[k].deep_view().cronjob_last_schedule_ts
        == s.workloads@[k].cronjob_last_schedule_ts@);
}

} // verus!
