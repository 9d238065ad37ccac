//! What holds of the namespaces that a snapshot reports.

use crate::autoscaler::listed;
use crate::pod_laws::{
    law_activity_is_kept_by_namespace, law_activity_is_the_smallest_age, started,
};
use crate::pods::{activity_by_namespace, health_by_workload, sightings, youngest, PodListing};
use crate::row_laws::{
    billed_places, container_counts, item_places, lemma_places_are_rows, listing_places, places,
    Kind, Place,
};
use crate::snapshot::{
    event_days, is_snapshot, namespace_row, rows_right, totals_by_namespace, usage_read,
    AgentSnapshot, ClusterListing, EventListing, HealthByWorkload, UsageByContainer,
    WorkloadListing,
};
use crate::snapshot_laws::law_latest_event_is_the_latest;
use crate::table::looked_up;
use crate::time::days_between;
use vstd::prelude::*;

verus! {

/// Whether `l` is the last listing of workloads of the namespace.
pub open spec fn last_listing(
    listings: Seq<WorkloadListing>,
    namespace: Seq<char>,
    l: int,
) -> bool {
    &&& 0 <= l < listings.len()
    &&& listings[l].namespace@ == namespace
    &&& forall|k: int| l < k < listings.len() ==> (#[trigger] listings[k]).namespace@ != namespace
}

/// Whether no workloads of the namespace were listed.
pub open spec fn not_listed(listings: Seq<WorkloadListing>, namespace: Seq<char>) -> bool {
    forall|k: int| 0 <= k < listings.len() ==> (#[trigger] listings[k]).namespace@ != namespace
}

proof fn lemma_item_places(listing: int, kind: Kind, counts: Seq<nat>)
    ensures
        forall|k: int|
            0 <= k < item_places(listing, kind, counts).len() ==> (#[trigger] item_places(
                listing,
                kind,
                counts,
            )[k]).listing == listing && item_places(listing, kind, counts)[k].kind == kind,
    decreases counts.len(),
{
    if counts.len() > 0 {
        lemma_item_places(listing, kind, counts.drop_last());
        let before = item_places(listing, kind, counts.drop_last());
        let all = item_places(listing, kind, counts);
        assert forall|k: int| 0 <= k < all.len() implies (#[trigger] all[k]).listing == listing
            && all[k].kind == kind by {
            if k < before.len() {
                assert(all[k] == before[k]);
            }
        }
    }
}

proof fn lemma_listing_places(listing: int, l: WorkloadListing)
    ensures
        forall|k: int|
            0 <= k < listing_places(listing, l).len() ==> {
                &&& (#[trigger] listing_places(listing, l)[k]).listing == listing
                &&& k < billed_places(listing, l).len() <==> listing_places(
                    listing,
                    l,
                )[k].kind !is CronJob
            },
        billed_places(listing, l).len() <= listing_places(listing, l).len(),
{
    let d = item_places(listing, Kind::Deployment, container_counts(l, Kind::Deployment));
    let s = item_places(listing, Kind::StatefulSet, container_counts(l, Kind::StatefulSet));
    let a = item_places(listing, Kind::DaemonSet, container_counts(l, Kind::DaemonSet));
    let j = item_places(listing, Kind::CronJob, container_counts(l, Kind::CronJob));
    lemma_item_places(listing, Kind::Deployment, container_counts(l, Kind::Deployment));
    lemma_item_places(listing, Kind::StatefulSet, container_counts(l, Kind::StatefulSet));
    lemma_item_places(listing, Kind::DaemonSet, container_counts(l, Kind::DaemonSet));
    lemma_item_places(listing, Kind::CronJob, container_counts(l, Kind::CronJob));
    let all = listing_places(listing, l);
    assert(all == d + s + a + j);
    assert forall|k: int| 0 <= k < all.len() implies {
        &&& (#[trigger] all[k]).listing == listing
        &&& k < (d + s + a).len() <==> all[k].kind !is CronJob
    } by {
        if k < d.len() {
            assert(all[k] == d[k]);
        } else if k < d.len() + s.len() {
            assert(all[k] == s[k - d.len()]);
        } else if k < d.len() + s.len() + a.len() {
            assert(all[k] == a[k - d.len() - s.len()]);
        } else {
            assert(all[k] == j[k - d.len() - s.len() - a.len()]);
        }
    }
}

/// Whether the billed rows of listing `l` are those from `from` up to `to`.
spec fn billed_between(at: Seq<Place>, l: int, from: int, to: int) -> bool {
    &&& 0 <= from <= to <= at.len()
    &&& forall|k: int|
        0 <= k < at.len() ==> ((#[trigger] at[k]).listing == l && at[k].kind !is CronJob <==> from
            <= k < to)
}

proof fn lemma_places_in_range(listings: Seq<WorkloadListing>)
    ensures
        forall|k: int|
            0 <= k < places(listings).len() ==> 0 <= (#[trigger] places(listings)[k]).listing
                < listings.len(),
    decreases listings.len(),
{
    if listings.len() > 0 {
        let init = listings.drop_last();
        lemma_places_in_range(init);
        lemma_listing_places(listings.len() - 1, listings.last());
        let before = places(init);
        let all = places(listings);
        assert forall|k: int| 0 <= k < all.len() implies 0 <= (#[trigger] all[k]).listing
            < listings.len() by {
            if k < before.len() {
                assert(all[k] == before[k]);
            } else {
                assert(all[k] == listing_places(
                    listings.len() - 1,
                    listings.last(),
                )[k - before.len()]);
            }
        }
    }
}

proof fn lemma_totals(
    listings: Seq<WorkloadListing>,
    node_count: u32,
    now: int,
    health: HealthByWorkload,
    usage: UsageByContainer,
    namespace: Seq<char>,
    l: int,
)
    ensures
        last_listing(listings, namespace, l) ==> totals_by_namespace(
            listings,
            node_count,
            now,
            health,
            usage,
        ).dom().contains(namespace) && {
            let (count, from, to) = totals_by_namespace(
                listings,
                node_count,
                now,
                health,
                usage,
            )[namespace];
            &&& count as int == (listed(listings[l].deployments).len() + listed(
                listings[l].stateful_sets,
            ).len() + listed(listings[l].daemon_sets).len() + listed(listings[l].cron_jobs).len())
                as int % 0x1_0000_0000
            &&& billed_between(places(listings), l, from, to)
        },
        not_listed(listings, namespace) ==> !totals_by_namespace(
            listings,
            node_count,
            now,
            health,
            usage,
        ).dom().contains(namespace),
    decreases listings.len(),
{
    if listings.len() > 0 {
        let init = listings.drop_last();
        let last = listings.len() - 1;
        lemma_totals(init, node_count, now, health, usage, namespace, l);
        assert forall|k: int| 0 <= k < init.len() implies init[k] == #[trigger] listings[k] by {}
        let before = places(init);
        let these = listing_places(last, listings[last]);
        let all = places(listings);
        lemma_listing_places(last, listings[last]);
        lemma_places_in_range(init);
        if last_listing(listings, namespace, l) {
            if l < last {
                assert(listings[last].namespace@ != namespace);
                assert(last_listing(init, namespace, l)) by {
                    assert forall|k: int| l < k < init.len() implies (
                    #[trigger] init[k]).namespace@ != namespace by {
                        assert(listings[k].namespace@ != namespace);
                    }
                    assert(init[l] == listings[l]);
                }
                let (count, from, to) = totals_by_namespace(
                    init,
                    node_count,
                    now,
                    health,
                    usage,
                )[namespace];
                assert forall|k: int| 0 <= k < all.len() implies ((#[trigger] all[k]).listing == l
                    && all[k].kind !is CronJob <==> from <= k < to) by {
                    if k < before.len() {
                        assert(all[k] == before[k]);
                    } else {
                        assert(all[k] == these[k - before.len()]);
                    }
                }
            } else {
                lemma_places_are_rows(init, node_count, now, health, usage);
                lemma_places_are_rows(listings, node_count, now, health, usage);
                let from = before.len() as int;
                let to = from + billed_places(last, listings[last]).len();
                assert forall|k: int| 0 <= k < all.len() implies ((#[trigger] all[k]).listing == l
                    && all[k].kind !is CronJob <==> from <= k < to) by {
                    if k < before.len() {
                        assert(all[k] == before[k]);
                        assert(before[k].listing < init.len());
                    } else {
                        assert(all[k] == these[k - before.len()]);
                    }
                }
                assert(billed_between(all, l, from, to));
            }
        }
        if not_listed(listings, namespace) {
            assert forall|k: int| 0 <= k < init.len() implies (#[trigger] init[k]).namespace@
                != namespace by {
                assert(listings[k].namespace@ != namespace);
            }
            assert(listings[last].namespace@ != namespace);
        }
    }
}

/// A snapshot reports one namespace for every listing of events, in order and under its
/// name.
pub proof fn law_every_namespace_is_reported(
    s: AgentSnapshot,
    c: ClusterListing,
    configured_provider: Option<Seq<char>>,
    now: int,
    collected_at: Seq<char>,
    elapsed_ms: u128,
    agent_version: Seq<char>,
    i: int,
)
    requires
        is_snapshot(s, c, configured_provider, now, collected_at, elapsed_ms, agent_version),
    ensures
        s.namespaces@.len() == c.events@.len(),
        0 <= i < s.namespaces@.len() ==> s.namespaces@[i].name@ == c.events@[i].namespace@,
{
    let usage = choose|usage: UsageByContainer|
        usage_read(usage, c) && #[trigger] rows_right(s, c, now, usage);
    lemma_namespace(s, c, now, usage, i);
}

proof fn lemma_namespace(
    s: AgentSnapshot,
    c: ClusterListing,
    now: int,
    usage: UsageByContainer,
    i: int,
)
    requires
        rows_right(s, c, now, usage),
    ensures
        s.namespaces@.len() == c.events@.len(),
        0 <= i < s.namespaces@.len() ==> s.namespaces@[i].deep_view() == namespace_row(
            c.events@[i],
            totals_by_namespace(
                c.workloads@,
                c.nodes@.len() as u32,
                now,
                health_by_workload(sightings(c.pods@)),
                usage,
            ),
            activity_by_namespace(c.pods@, now),
            now,
        ),
{
    assert(s.namespaces.deep_view().len() == s.namespaces@.len());
    if 0 <= i < s.namespaces@.len() {
        assert(s.namespaces.deep_view()[i] == s.namespaces@[i].deep_view());
    }
}

/// A namespace has as many workloads as its last listing has Deployments, StatefulSets,
/// DaemonSets and CronJobs together, as far as 32 bits hold them, and is billed for
/// exactly the rows of these Deployments, StatefulSets and DaemonSets. A namespace that
/// was not listed has no workloads and is billed for nothing.
pub proof fn law_namespaces_are_billed_for_their_steady_workloads(
    s: AgentSnapshot,
    c: ClusterListing,
    configured_provider: Option<Seq<char>>,
    now: int,
    collected_at: Seq<char>,
    elapsed_ms: u128,
    agent_version: Seq<char>,
    i: int,
    l: int,
)
    requires
        is_snapshot(s, c, configured_provider, now, collected_at, elapsed_ms, agent_version),
        0 <= i < s.namespaces@.len(),
    ensures
        last_listing(c.workloads@, s.namespaces@[i].name@, l) ==> {
            let n = s.namespaces@[i];
            let listing = c.workloads@[l];
            &&& n.workload_count as int == (listed(listing.deployments).len() + listed(
                listing.stateful_sets,
            ).len() + listed(listing.daemon_sets).len() + listed(listing.cron_jobs).len()) as int
                % 0x1_0000_0000
            &&& n.billed_from <= n.billed_to <= s.workloads@.len()
            &&& forall|k: int|
                0 <= k < s.workloads@.len() ==> (n.billed_from <= k < n.billed_to <==> (
                #[trigger] places(c.workloads@)[k]).listing == l && places(
                    c.workloads@,
                )[k].kind !is CronJob)
        },
        not_listed(c.workloads@, s.namespaces@[i].name@) ==> s.namespaces@[i].workload_count == 0
            && s.namespaces@[i].billed_from == s.namespaces@[i].billed_to,
{
    let usage = choose|usage: UsageByContainer|
        usage_read(usage, c) && #[trigger] rows_right(s, c, now, usage);
    lemma_namespace(s, c, now, usage, i);
    let node_count = c.nodes@.len() as u32;
    let health = health_by_workload(sightings(c.pods@));
    let name = s.namespaces@[i].name@;
    lemma_totals(c.workloads@, node_count, now, health, usage, name, l);
    lemma_places_are_rows(c.workloads@, node_count, now, health, usage);
    assert(s.workloads.deep_view().len() == s.workloads@.len());
}

/// Whether `l` is the last listing of the namespace whose pods could be read.
pub open spec fn last_readable(
    listings: Seq<PodListing>,
    namespace: Seq<char>,
    l: int,
) -> bool {
    &&& 0 <= l < listings.len()
    &&& listings[l].namespace@ == namespace
    &&& listings[l].pods is Some
    &&& forall|k: int|
        l < k < listings.len() ==> (#[trigger] listings[k]).namespace@ != namespace
            || listings[k].pods is None
}

/// Whether a pod of the namespace was started `days` ago.
pub open spec fn pod_sign(
    listings: Seq<PodListing>,
    namespace: Seq<char>,
    now: int,
    days: u32,
) -> bool {
    exists|l: int, p: int|
        #![trigger listed(listings[l].pods)[p]]
        last_readable(listings, namespace, l) && 0 <= p < listed(listings[l].pods).len() && (
        started(listed(listings[l].pods)[p]) matches Some(t) && days_between(now, t) == days)
}

/// Whether an event was last seen `days` ago, and none more recently.
pub open spec fn event_sign(e: EventListing, now: int, days: u32) -> bool {
    exists|i: int|
        0 <= i < listed(e.events).len() && ((#[trigger] listed(e.events)[i]) matches Some(ts)
            && days_between(now, ts@) == days && forall|j: int|
            0 <= j < listed(e.events).len() ==> ((#[trigger] listed(e.events)[j]) matches Some(
                other,
            ) ==> other@ <= ts@))
}

proof fn lemma_pod_signs(listings: Seq<PodListing>, namespace: Seq<char>, now: int)
    ensures
        forall|d: u32| #[trigger]
            pod_sign(listings, namespace, now, d) ==> (looked_up(
                activity_by_namespace(listings, now),
                namespace,
            ) matches Some(n) && n <= d),
        looked_up(activity_by_namespace(listings, now), namespace) matches Some(n) ==> n
            == u32::MAX || pod_sign(listings, namespace, now, n),
{
    let known = looked_up(activity_by_namespace(listings, now), namespace);
    assert forall|d: u32| #[trigger] pod_sign(listings, namespace, now, d) implies (known matches Some(
        n,
    ) && n <= d) by {
        let (l, p) = choose|l: int, p: int|
            #![trigger listed(listings[l].pods)[p]]
            last_readable(listings, namespace, l) && 0 <= p < listed(listings[l].pods).len() && (
            started(listed(listings[l].pods)[p]) matches Some(t) && days_between(now, t) == d);
        law_activity_is_kept_by_namespace(listings, now, namespace, l);
        law_activity_is_the_smallest_age(listed(listings[l].pods), now);
        assert(activity_by_namespace(listings, now).contains_pair(
            namespace,
            youngest(listed(listings[l].pods), now),
        ));
    }
    if known is Some {
        law_activity_is_kept_by_namespace(listings, now, namespace, 0);
        let k = choose|k: int|
            0 <= k < listings.len() && !((#[trigger] listings[k]).namespace@ != namespace
                || listings[k].pods is None);
        lemma_last_readable(listings, namespace, k);
        let l = choose|l: int| #[trigger] last_readable(listings, namespace, l);
        law_activity_is_kept_by_namespace(listings, now, namespace, l);
        let pods = listed(listings[l].pods);
        law_activity_is_the_smallest_age(pods, now);
        assert(activity_by_namespace(listings, now).contains_pair(namespace, youngest(pods, now)));
        if exists|p: int| 0 <= p < pods.len() && started(#[trigger] pods[p]) is Some {
            let p = choose|p: int|
                0 <= p < pods.len() && (started(#[trigger] pods[p]) matches Some(t) && youngest(
                    pods,
                    now,
                ) == days_between(now, t));
            assert(listed(listings[l].pods)[p] == pods[p]);
        }
    }
}

proof fn lemma_last_readable(listings: Seq<PodListing>, namespace: Seq<char>, k: int)
    requires
        0 <= k < listings.len(),
        listings[k].namespace@ == namespace,
        listings[k].pods is Some,
    ensures
        exists|l: int| #[trigger] last_readable(listings, namespace, l),
    decreases listings.len() - k,
{
    if exists|m: int|
        k < m < listings.len() && !((#[trigger] listings[m]).namespace@ != namespace
            || listings[m].pods is None) {
        let m = choose|m: int|
            k < m < listings.len() && !((#[trigger] listings[m]).namespace@ != namespace
                || listings[m].pods is None);
        lemma_last_readable(listings, namespace, m);
    } else {
        assert(last_readable(listings, namespace, k));
    }
}

proof fn lemma_event_signs(e: EventListing, now: int)
    ensures
        forall|d: u32| #[trigger] event_sign(e, now, d) ==> event_days(e.events, now) == d,
        event_days(e.events, now) == u32::MAX || event_sign(e, now, event_days(e.events, now)),
{
    let events = listed(e.events);
    law_latest_event_is_the_latest(events);
    assert forall|d: u32| #[trigger] event_sign(e, now, d) implies event_days(e.events, now)
        == d by {
        let i = choose|i: int|
            0 <= i < events.len() && ((#[trigger] events[i]) matches Some(ts) && days_between(
                now,
                ts@,
            ) == d && forall|j: int|
                0 <= j < events.len() ==> ((#[trigger] events[j]) matches Some(other) ==> other@
                    <= ts@));
        let t = crate::snapshot::latest(events)->0;
        let j = choose|j: int|
            0 <= j < events.len() && ((#[trigger] events[j]) matches Some(ts) && ts@ == t);
        assert(events[i] matches Some(ts) && ts@ == t);
    }
    match crate::snapshot::latest(events) {
        Some(t) => {
            let i = choose|i: int|
                0 <= i < events.len() && ((#[trigger] events[i]) matches Some(ts) && ts@ == t);
            assert(events[i] matches Some(ts) && days_between(now, ts@) == event_days(
                e.events,
                now,
            ));
            assert(event_sign(e, now, event_days(e.events, now)));
        },
        None => {},
    }
}

/// Whether a pod or the latest event of a namespace was last seen `days` ago.
pub open spec fn sign_of_life(
    pods: Seq<PodListing>,
    e: EventListing,
    now: int,
    days: u32,
) -> bool {
    pod_sign(pods, e.namespace@, now, days) || event_sign(e, now, days)
}

/// A namespace was last active as many days ago as its most recent sign says: the start
/// of one of its pods or its latest event. Without any sign it counts as active now.
pub proof fn law_namespaces_are_as_active_as_their_most_recent_sign(
    s: AgentSnapshot,
    c: ClusterListing,
    configured_provider: Option<Seq<char>>,
    now: int,
    collected_at: Seq<char>,
    elapsed_ms: u128,
    agent_version: Seq<char>,
    i: int,
)
    requires
        is_snapshot(s, c, configured_provider, now, collected_at, elapsed_ms, agent_version),
        0 <= i < s.namespaces@.len(),
    ensures
        forall|d: u32| #[trigger]
            sign_of_life(c.pods@, c.events@[i], now, d)
                ==> s.namespaces@[i].days_since_last_activity <= d,
        (exists|d: u32|
            d != u32::MAX && #[trigger] sign_of_life(c.pods@, c.events@[i], now, d))
            ==> sign_of_life(
            c.pods@,
            c.events@[i],
            now,
            s.namespaces@[i].days_since_last_activity,
        ),
        (forall|d: u32| !#[trigger] sign_of_life(c.pods@, c.events@[i], now, d))
            ==> s.namespaces@[i].days_since_last_activity == 0,
{
    let usage = choose|usage: UsageByContainer|
        usage_read(usage, c) && #[trigger] rows_right(s, c, now, usage);
    lemma_namespace(s, c, now, usage, i);
    let e = c.events@[i];
    let name = e.namespace@;
    lemma_pod_signs(c.pods@, name, now);
    lemma_event_signs(e, now);
    let events = event_days(e.events, now);
    let pods = looked_up(activity_by_namespace(c.pods@, now), name);
    let days = s.namespaces@[i].days_since_last_activity;
    assert(s.namespaces@[i].deep_view().days_since_last_activity == days);
    if exists|d: u32| d != u32::MAX && #[trigger] sign_of_life(c.pods@, e, now, d) {
        let d = choose|d: u32| d != u32::MAX && #[trigger] sign_of_life(c.pods@, e, now, d);
        if pod_sign(c.pods@, name, now, d) {
            assert(pods matches Some(n) && n <= d);
        } else {
            assert(events == d);
        }
        assert(days == events || pods == Some(days));
    }
    if forall|d: u32| !#[trigger] sign_of_life(c.pods@, e, now, d) {
        match pods {
            Some(n) => {
                assert(!sign_of_life(c.pods@, e, now, n));
            },
            None => {},
        }
        assert(!sign_of_life(c.pods@, e, now, events));
    }
}

} // verus!
