//! What holds of pods, their owners and the health of workloads.

use crate::autoscaler::listed;
use crate::pods::{
    activity_by_namespace, budgets_keep, deployment_of, first_qos_class, floor_for,
    health_by_workload, health_of, oom_killed, oom_kills, owner_of_kind, owners_by_pod, restarts,
    seen, seen_as, selects, sightings, sightings_in, sightings_of, total_floor, total_oom_kills,
    total_restarts, workload_key, workload_of, youngest, ContainerStatus, IntOrString,
    OwnerReference, Pod, PodDisruptionBudget, PodListing, ReplicaSet, Sighting,
};
use crate::time::days_between;
use vstd::prelude::*;

verus! {

/// An owner of a kind is the first of this kind.
pub proof fn law_first_owner_of_a_kind_counts(
    owners: Seq<OwnerReference>,
    kind: Seq<char>,
    i: int,
)
    ensures
        0 <= i < owners.len() && owners[i].kind@ == kind && (forall|j: int|
            0 <= j < i ==> (#[trigger] owners[j]).kind@ != kind) ==> owner_of_kind(owners, kind)
            == Some(owners[i].name@),
        (forall|j: int| 0 <= j < owners.len() ==> (#[trigger] owners[j]).kind@ != kind) <==> (
        owner_of_kind(owners, kind) is None),
    decreases owners.len(),
{
    if owners.len() > 0 && owners[0].kind@ != kind {
        let rest = owners.skip(1);
        law_first_owner_of_a_kind_counts(rest, kind, i - 1);
        assert forall|j: int| 0 <= j < rest.len() implies rest[j] == #[trigger] owners[j + 1] by {}
        if forall|j: int| 0 <= j < owners.len() ==> (#[trigger] owners[j]).kind@ != kind {
            assert forall|j: int| 0 <= j < rest.len() implies (#[trigger] rest[j]).kind@
                != kind by {
                assert(owners[j + 1].kind@ != kind);
            }
        }
        if forall|j: int| 0 <= j < rest.len() ==> (#[trigger] rest[j]).kind@ != kind {
            assert forall|j: int| 0 <= j < owners.len() implies (#[trigger] owners[j]).kind@
                != kind by {
                if j > 0 {
                    assert(rest[j - 1].kind@ != kind);
                }
            }
        }
        if 0 <= i < owners.len() && owners[i].kind@ == kind && (forall|j: int|
            0 <= j < i ==> (#[trigger] owners[j]).kind@ != kind) {
            assert forall|j: int| 0 <= j < i - 1 implies (#[trigger] rest[j]).kind@ != kind by {
                assert(owners[j + 1].kind@ != kind);
            }
        }
    }
}

/// Whether `set` is called `name` and has an owner that is a Deployment.
pub open spec fn leads_on(set: ReplicaSet, name: Seq<char>) -> bool {
    &&& set.name matches Some(n) && n@ == name
    &&& exists|j: int|
        0 <= j < set.owners@.len() && (#[trigger] set.owners@[j]).kind@ == "Deployment"@
}

/// A ReplicaSet leads to the Deployment that owns the last ReplicaSet of its name that
/// a Deployment owns, and to none where no Deployment owns one of its name.
pub proof fn law_replica_sets_lead_to_deployments(
    sets: Seq<ReplicaSet>,
    name: Seq<char>,
    i: int,
)
    ensures
        0 <= i < sets.len() && leads_on(sets[i], name) && (forall|j: int|
            i < j < sets.len() ==> !leads_on(#[trigger] sets[j], name)) ==> deployment_of(
            sets,
            name,
        ) == owner_of_kind(sets[i].owners@, "Deployment"@),
        (forall|j: int| 0 <= j < sets.len() ==> !leads_on(#[trigger] sets[j], name)) <==> (
        deployment_of(sets, name) is None),
    decreases sets.len(),
{
    if sets.len() > 0 {
        let init = sets.drop_last();
        law_replica_sets_lead_to_deployments(init, name, i);
        assert forall|j: int| 0 <= j < init.len() implies init[j] == #[trigger] sets[j] by {}
        let last = sets[sets.len() - 1];
        law_first_owner_of_a_kind_counts(last.owners@, "Deployment"@, 0);
        assert(leads_on(last, name) == (last.name matches Some(n) && n@ == name && owner_of_kind(
            last.owners@,
            "Deployment"@,
        ) is Some));
        if !leads_on(last, name) {
            if forall|j: int| 0 <= j < init.len() ==> !leads_on(#[trigger] init[j], name) {
                assert forall|j: int| 0 <= j < sets.len() implies !leads_on(
                    #[trigger] sets[j],
                    name,
                ) by {
                    if j < init.len() {
                        assert(!leads_on(init[j], name));
                    }
                }
            }
            if forall|j: int| 0 <= j < sets.len() ==> !leads_on(#[trigger] sets[j], name) {
                assert forall|j: int| 0 <= j < init.len() implies !leads_on(
                    #[trigger] init[j],
                    name,
                ) by {
                    assert(!leads_on(sets[j], name));
                }
            }
            if 0 <= i && forall|j: int| i < j < sets.len() ==> !leads_on(#[trigger] sets[j], name) {
                assert forall|j: int| i < j < init.len() implies !leads_on(
                    #[trigger] init[j],
                    name,
                ) by {
                    assert(!leads_on(sets[j], name));
                }
            }
        }
    }
}

/// The first owner of a pod decides which workload owns it: a StatefulSet or a DaemonSet
/// is the workload, and so is a ReplicaSet unless it leads to a Deployment, which then
/// is. Any other owner, or none, is no workload; further owners play no part.
pub proof fn law_first_owner_decides(pod: Pod, other: Pod, sets: Seq<ReplicaSet>)
    ensures
        pod.owners@.len() == 0 ==> workload_of(pod, sets) is None,
        pod.owners@.len() > 0 && other.owners@.len() > 0 && pod.owners@[0] == other.owners@[0]
            ==> workload_of(pod, sets) == workload_of(other, sets),
        pod.owners@.len() > 0 ==> {
            let owner = pod.owners@[0];
            &&& workload_of(pod, sets) is Some <==> owner.kind@ == "ReplicaSet"@ || owner.kind@
                == "StatefulSet"@ || owner.kind@ == "DaemonSet"@
            &&& owner.kind@ == "StatefulSet"@ || owner.kind@ == "DaemonSet"@ ==> workload_of(
                pod,
                sets,
            ) == Some((owner.kind@, owner.name@))
            &&& owner.kind@ == "ReplicaSet"@ && deployment_of(sets, owner.name@) is None
                ==> workload_of(pod, sets) == Some((owner.kind@, owner.name@))
            &&& owner.kind@ == "ReplicaSet"@ ==> (deployment_of(sets, owner.name@) matches Some(d)
                ==> workload_of(pod, sets) == Some(("Deployment"@, d)))
        },
{
    reveal_strlit("ReplicaSet");
    reveal_strlit("StatefulSet");
    reveal_strlit("DaemonSet");
    assert("ReplicaSet"@.len() == 10 && "StatefulSet"@.len() == 11 && "DaemonSet"@.len() == 9);
}

/// When a pod that has a name was started.
pub open spec fn started(pod: Pod) -> Option<int> {
    match (pod.name, pod.status) {
        (Some(name), Some(status)) => match status.start_time {
            Some(start) => Some(start@),
            None => None,
        },
        _ => None,
    }
}

/// The activity of pods is the smallest age among those with a name and a start time:
/// it is at most that of each and that of one of them, and the largest number where
/// there is none.
pub proof fn law_activity_is_the_smallest_age(pods: Seq<Pod>, now: int)
    ensures
        forall|i: int|
            0 <= i < pods.len() ==> (started(#[trigger] pods[i]) matches Some(t) ==> youngest(
                pods,
                now,
            ) <= days_between(now, t)),
        (exists|i: int| 0 <= i < pods.len() && started(#[trigger] pods[i]) is Some) ==> exists|
            i: int,
        |
            0 <= i < pods.len() && (started(#[trigger] pods[i]) matches Some(t) && youngest(
                pods,
                now,
            ) == days_between(now, t)),
        (forall|i: int| 0 <= i < pods.len() ==> started(#[trigger] pods[i]) is None) ==> youngest(
            pods,
            now,
        ) == u32::MAX,
    decreases pods.len(),
{
    if pods.len() > 0 {
        let init = pods.drop_last();
        let last = pods.len() - 1;
        law_activity_is_the_smallest_age(init, now);
        assert forall|i: int| 0 <= i < init.len() implies init[i] == #[trigger] pods[i] by {}
        assert forall|i: int| 0 <= i < pods.len() implies (started(#[trigger] pods[i]) matches Some(
            t,
        ) ==> youngest(pods, now) <= days_between(now, t)) by {
            if i < last {
                assert(init[i] == pods[i]);
            }
        }
        if exists|i: int| 0 <= i < init.len() && started(#[trigger] init[i]) is Some {
            let i = choose|i: int|
                0 <= i < init.len() && (started(#[trigger] init[i]) matches Some(t) && youngest(
                    init,
                    now,
                ) == days_between(now, t));
            assert(started(pods[i]) == started(init[i]));
        }
        if started(pods[last]) is None {
            if exists|i: int| 0 <= i < pods.len() && started(#[trigger] pods[i]) is Some {
                let i = choose|i: int| 0 <= i < pods.len() && started(#[trigger] pods[i]) is Some;
                assert(started(init[i]) is Some);
            }
        }
        if forall|i: int| 0 <= i < pods.len() ==> started(#[trigger] pods[i]) is None {
            assert forall|i: int| 0 <= i < init.len() implies started(
                #[trigger] init[i],
            ) is None by {
                assert(started(pods[i]) is None);
            }
            assert(started(pods[last]) is None);
        }
    }
}

/// The activity of pods does not depend on the order in which they are listed.
pub proof fn law_activity_ignores_the_order_of_pods(a: Seq<Pod>, b: Seq<Pod>, now: int)
    requires
        a.to_multiset() == b.to_multiset(),
    ensures
        youngest(a, now) == youngest(b, now),
{
    lemma_activity_at_most(a, b, now);
    lemma_activity_at_most(b, a, now);
}

proof fn lemma_activity_at_most(a: Seq<Pod>, b: Seq<Pod>, now: int)
    requires
        a.to_multiset() == b.to_multiset(),
    ensures
        youngest(a, now) <= youngest(b, now),
{
    a.to_multiset_ensures();
    b.to_multiset_ensures();
    law_activity_is_the_smallest_age(a, now);
    law_activity_is_the_smallest_age(b, now);
    if exists|i: int| 0 <= i < b.len() && started(#[trigger] b[i]) is Some {
        let i = choose|i: int|
            0 <= i < b.len() && (started(#[trigger] b[i]) matches Some(t) && youngest(b, now)
                == days_between(now, t));
        vstd::seq_lib::to_multiset_contains(b, b[i]);
        vstd::seq_lib::to_multiset_contains(a, b[i]);
        assert(b.contains(b[i]));
        let j = choose|j: int| 0 <= j < a.len() && a[j] == b[i];
        assert(started(a[j]) == started(b[i]));
    }
}

/// The activity of a namespace is that of the pods of its last listing that could be
/// read; a namespace without one has none.
pub proof fn law_activity_is_kept_by_namespace(
    listings: Seq<PodListing>,
    now: int,
    namespace: Seq<char>,
    l: int,
)
    ensures
        0 <= l < listings.len() && listings[l].namespace@ == namespace && (forall|k: int|
            l < k < listings.len() ==> (#[trigger] listings[k]).namespace@ != namespace
                || listings[k].pods is None) ==> (listings[l].pods matches Some(pods)
            ==> activity_by_namespace(listings, now).contains_pair(
            namespace,
            youngest(pods@, now),
        )),
        (forall|k: int|
            0 <= k < listings.len() ==> (#[trigger] listings[k]).namespace@ != namespace
                || listings[k].pods is None) ==> !activity_by_namespace(
            listings,
            now,
        ).dom().contains(namespace),
    decreases listings.len(),
{
    if listings.len() > 0 {
        let init = listings.drop_last();
        law_activity_is_kept_by_namespace(init, now, namespace, l);
        assert forall|k: int| 0 <= k < init.len() implies init[k] == #[trigger] listings[k] by {}
        let last = listings[listings.len() - 1];
        if last.namespace@ != namespace || last.pods is None {
            if 0 <= l && forall|k: int|
                l < k < listings.len() ==> (#[trigger] listings[k]).namespace@ != namespace
                    || listings[k].pods is None {
                assert forall|k: int| l < k < init.len() implies (#[trigger] init[k]).namespace@
                    != namespace || init[k].pods is None by {
                    assert(listings[k] == init[k]);
                }
            }
            if forall|k: int|
                0 <= k < listings.len() ==> (#[trigger] listings[k]).namespace@ != namespace
                    || listings[k].pods is None {
                assert forall|k: int| 0 <= k < init.len() implies (#[trigger] init[k]).namespace@
                    != namespace || init[k].pods is None by {
                    assert(listings[k] == init[k]);
                }
            }
        }
    }
}

/// Whether the last termination of a container has exactly this reason.
pub open spec fn ended_by(reason: Seq<char>) -> spec_fn(ContainerStatus) -> bool {
    |status: ContainerStatus| status.last_termination_reason matches Some(r) && r@ == reason
}

/// The kills for want of memory are the container statuses whose last termination has
/// the reason `OOMKilled`; a status with another reason, or with none, is not one.
pub proof fn law_only_oom_killed_counts(statuses: Seq<ContainerStatus>)
    ensures
        oom_kills(statuses) == statuses.filter(ended_by("OOMKilled"@)).len(),
        (forall|i: int|
            0 <= i < statuses.len() ==> ((#[trigger] statuses[i]).last_termination_reason matches Some(
                r,
            ) ==> r@ != "OOMKilled"@)) ==> oom_kills(statuses) == 0,
    decreases statuses.len(),
{
    reveal(Seq::filter);
    if statuses.len() > 0 {
        let init = statuses.drop_last();
        law_only_oom_killed_counts(init);
        assert forall|i: int| 0 <= i < init.len() implies init[i] == #[trigger] statuses[i] by {}
        if forall|i: int|
            0 <= i < statuses.len() ==> ((#[trigger] statuses[i]).last_termination_reason matches Some(
                r,
            ) ==> r@ != "OOMKilled"@) {
            assert forall|i: int| 0 <= i < init.len() implies ((
            #[trigger] init[i]).last_termination_reason matches Some(r) ==> r@
                != "OOMKilled"@) by {
                assert(statuses[i] == init[i]);
            }
            assert(!oom_killed(statuses[statuses.len() - 1]));
        }
    }
}

/// Restarts and kills add up over containers; one container counts for its restarts, and
/// for none where their number is negative.
pub proof fn law_restarts_and_kills_add_up(
    a: Seq<ContainerStatus>,
    b: Seq<ContainerStatus>,
    status: ContainerStatus,
)
    ensures
        restarts(a + b) == restarts(a) + restarts(b),
        oom_kills(a + b) == oom_kills(a) + oom_kills(b),
        restarts(Seq::empty()) == 0,
        oom_kills(Seq::empty()) == 0,
        status.restart_count >= 0 ==> restarts(seq![status]) == status.restart_count,
        status.restart_count < 0 ==> restarts(seq![status]) == 0,
    decreases b.len(),
{
    assert(seq![status].drop_last() == Seq::<ContainerStatus>::empty());
    reveal_with_fuel(restarts, 2);
    if b.len() == 0 {
        assert(a + b == a);
    } else {
        assert((a + b).drop_last() == a + b.drop_last());
        law_restarts_and_kills_add_up(a, b.drop_last(), status);
    }
}

/// Whether a pod has a name and the workload `name` of type `kind` owns it.
pub open spec fn owned_by(
    kind: Seq<char>,
    name: Seq<char>,
    sets: Seq<ReplicaSet>,
) -> spec_fn(Pod) -> bool {
    |pod: Pod| pod.name is Some && workload_of(pod, sets) == Some((kind, name))
}

/// The pods of a listing that the workload `key` owns.
pub open spec fn pods_of(
    listing: PodListing,
    key: (Seq<char>, Seq<char>, Seq<char>),
) -> Seq<Pod> {
    if listing.namespace@ == key.0 {
        listed(listing.pods).filter(owned_by(key.1, key.2, listed(listing.replica_sets)))
    } else {
        Seq::empty()
    }
}

/// The pods of all listings that the workload `key` owns.
pub open spec fn all_pods_of(
    listings: Seq<PodListing>,
    key: (Seq<char>, Seq<char>, Seq<char>),
) -> Seq<Pod>
    decreases listings.len(),
{
    if listings.len() == 0 {
        Seq::empty()
    } else {
        all_pods_of(listings.drop_last(), key) + pods_of(listings.last(), key)
    }
}

/// The container statuses of a pod.
pub open spec fn statuses_of(pod: Pod) -> Seq<ContainerStatus> {
    match pod.status {
        Some(status) => status.container_statuses@,
        None => Seq::empty(),
    }
}

/// The container statuses of all the pods.
pub open spec fn all_statuses(pods: Seq<Pod>) -> Seq<ContainerStatus>
    decreases pods.len(),
{
    if pods.len() == 0 {
        Seq::empty()
    } else {
        all_statuses(pods.drop_last()) + statuses_of(pods.last())
    }
}

/// The quality-of-service class of a pod, empty where it reports none.
pub open spec fn class_of(pod: Pod) -> Seq<char> {
    match pod.status {
        Some(status) => match status.qos_class {
            Some(class) => class@,
            None => Seq::empty(),
        },
        None => Seq::empty(),
    }
}

/// Whether `class` is what the first of the pods with a class reports, or empty where
/// none of them has one.
pub open spec fn first_class(class: Seq<char>, pods: Seq<Pod>) -> bool {
    if class.len() == 0 {
        forall|i: int| 0 <= i < pods.len() ==> class_of(#[trigger] pods[i]).len() == 0
    } else {
        exists|i: int|
            0 <= i < pods.len() && class_of(#[trigger] pods[i]) == class && forall|j: int|
                0 <= j < i ==> class_of(#[trigger] pods[j]).len() == 0
    }
}

proof fn lemma_statuses_join(a: Seq<Pod>, b: Seq<Pod>)
    ensures
        all_statuses(a + b) == all_statuses(a) + all_statuses(b),
    decreases b.len(),
{
    if b.len() == 0 {
        assert(a + b == a);
    } else {
        assert((a + b).drop_last() == a + b.drop_last());
        lemma_statuses_join(a, b.drop_last());
    }
}

proof fn lemma_first_class_joins(p: Seq<char>, a: Seq<Pod>, q: Seq<char>, b: Seq<Pod>)
    requires
        first_class(p, a),
        first_class(q, b),
    ensures
        first_class(
            if p.len() > 0 {
                p
            } else {
                q
            },
            a + b,
        ),
{
    let whole = a + b;
    assert forall|i: int| 0 <= i < a.len() implies whole[i] == #[trigger] a[i] by {}
    assert forall|i: int| 0 <= i < b.len() implies whole[a.len() + i] == #[trigger] b[i] by {}
    if p.len() > 0 {
        let i = choose|i: int|
            0 <= i < a.len() && class_of(#[trigger] a[i]) == p && forall|j: int|
                0 <= j < i ==> class_of(#[trigger] a[j]).len() == 0;
        assert(class_of(whole[i]) == p);
        assert forall|j: int| 0 <= j < i implies class_of(#[trigger] whole[j]).len() == 0 by {
            assert(class_of(a[j]).len() == 0);
        }
    } else {
        assert forall|j: int| 0 <= j < a.len() implies class_of(#[trigger] whole[j]).len()
            == 0 by {
            assert(class_of(a[j]).len() == 0);
        }
        if q.len() > 0 {
            let i = choose|i: int|
                0 <= i < b.len() && class_of(#[trigger] b[i]) == q && forall|j: int|
                    0 <= j < i ==> class_of(#[trigger] b[j]).len() == 0;
            assert(class_of(whole[a.len() + i]) == q);
            assert forall|j: int| 0 <= j < a.len() + i implies class_of(
                #[trigger] whole[j],
            ).len() == 0 by {
                if j >= a.len() {
                    assert(class_of(b[j - a.len()]).len() == 0);
                }
            }
        } else {
            assert forall|j: int| 0 <= j < whole.len() implies class_of(#[trigger] whole[j]).len()
                == 0 by {
                if j >= a.len() {
                    assert(class_of(b[j - a.len()]).len() == 0);
                }
            }
        }
    }
}

/// What the sightings `s` say of the workload `key`, where `pods` are its pods.
spec fn told(s: Seq<Sighting>, key: (Seq<char>, Seq<char>, Seq<char>), pods: Seq<Pod>) -> bool {
    &&& seen(s, key) <==> pods.len() > 0
    &&& total_oom_kills(s, key) == oom_kills(all_statuses(pods))
    &&& total_restarts(s, key) == restarts(all_statuses(pods))
    &&& first_class(first_qos_class(s, key), pods)
}

proof fn lemma_told_joins(
    a: Seq<Sighting>,
    b: Seq<Sighting>,
    key: (Seq<char>, Seq<char>, Seq<char>),
)
    ensures
        seen(a + b, key) <==> seen(a, key) || seen(b, key),
        total_oom_kills(a + b, key) == total_oom_kills(a, key) + total_oom_kills(b, key),
        total_restarts(a + b, key) == total_restarts(a, key) + total_restarts(b, key),
        first_qos_class(a + b, key) == if first_qos_class(a, key).len() > 0 {
            first_qos_class(a, key)
        } else {
            first_qos_class(b, key)
        },
    decreases b.len(),
{
    let whole = a + b;
    assert forall|i: int| 0 <= i < a.len() implies whole[i] == #[trigger] a[i] by {}
    assert forall|i: int| 0 <= i < b.len() implies whole[a.len() + i] == #[trigger] b[i] by {}
    if seen(whole, key) {
        let i = choose|i: int| 0 <= i < whole.len() && workload_key(#[trigger] whole[i]) == key;
        if i < a.len() {
            assert(workload_key(a[i]) == key);
        } else {
            assert(workload_key(b[i - a.len()]) == key);
        }
    }
    if seen(a, key) {
        let i = choose|i: int| 0 <= i < a.len() && workload_key(#[trigger] a[i]) == key;
        assert(workload_key(whole[i]) == key);
    }
    if seen(b, key) {
        let i = choose|i: int| 0 <= i < b.len() && workload_key(#[trigger] b[i]) == key;
        assert(workload_key(whole[a.len() + i]) == key);
    }
    if b.len() == 0 {
        assert(whole == a);
    } else {
        assert(whole.drop_last() == a + b.drop_last());
        lemma_told_joins(a, b.drop_last(), key);
    }
}

proof fn lemma_told_together(
    a: Seq<Sighting>,
    p: Seq<Pod>,
    b: Seq<Sighting>,
    q: Seq<Pod>,
    key: (Seq<char>, Seq<char>, Seq<char>),
)
    requires
        told(a, key, p),
        told(b, key, q),
    ensures
        told(a + b, key, p + q),
{
    lemma_told_joins(a, b, key);
    lemma_statuses_join(p, q);
    let status = arbitrary();
    law_restarts_and_kills_add_up(all_statuses(p), all_statuses(q), status);
    lemma_first_class_joins(first_qos_class(a, key), p, first_qos_class(b, key), q);
}

proof fn lemma_told_by_pods(
    namespace: Seq<char>,
    sets: Seq<ReplicaSet>,
    kept: Seq<(Map<Seq<char>, Seq<char>>, u32)>,
    pods: Seq<Pod>,
    key: (Seq<char>, Seq<char>, Seq<char>),
)
    ensures
        told(
            sightings_in(namespace, sets, kept, pods),
            key,
            if namespace == key.0 {
                pods.filter(owned_by(key.1, key.2, sets))
            } else {
                Seq::empty()
            },
        ),
    decreases pods.len(),
{
    reveal(Seq::filter);
    let owned = owned_by(key.1, key.2, sets);
    if pods.len() > 0 {
        let pod = pods.last();
        let init = pods.drop_last();
        lemma_told_by_pods(namespace, sets, kept, init, key);
        let before = sightings_in(namespace, sets, kept, init);
        let mine = if namespace == key.0 {
            init.filter(owned)
        } else {
            Seq::empty()
        };
        match seen_as(namespace, sets, kept, pod) {
            Some(sighting) => {
                let one = seq![sighting];
                assert(one.drop_last() == Seq::<Sighting>::empty());
                reveal_with_fuel(total_oom_kills, 2);
                reveal_with_fuel(total_restarts, 2);
                reveal_with_fuel(first_qos_class, 2);
                reveal_with_fuel(all_statuses, 2);
                assert(before.push(sighting) == before + one);
                if workload_key(sighting) == key {
                    assert(namespace == key.0 && owned(pod));
                    let single = seq![pod];
                    assert(single.drop_last() == Seq::<Pod>::empty());
                    assert(all_statuses(single) == statuses_of(pod));
                    assert(workload_key(one[0]) == key);
                    if class_of(pod).len() > 0 {
                        assert(class_of(single[0]) == sighting.qos_class);
                    }
                    assert(first_class(first_qos_class(one, key), single));
                    assert(told(one, key, single));
                    lemma_told_together(before, mine, one, single, key);
                    assert(mine + single == mine.push(pod));
                } else {
                    assert(!(namespace == key.0 && owned(pod)));
                    let nothing = Seq::<Pod>::empty();
                    assert(!seen(one, key));
                    assert(told(one, key, nothing));
                    lemma_told_together(before, mine, one, nothing, key);
                    assert(mine + nothing == mine);
                }
            },
            None => {
                assert(!owned(pod));
            },
        }
    }
}

proof fn lemma_told_by_listings(
    listings: Seq<PodListing>,
    key: (Seq<char>, Seq<char>, Seq<char>),
)
    ensures
        told(sightings(listings), key, all_pods_of(listings, key)),
    decreases listings.len(),
{
    if listings.len() > 0 {
        let l = listings.last();
        lemma_told_by_listings(listings.drop_last(), key);
        lemma_told_by_pods(
            l.namespace@,
            listed(l.replica_sets),
            budgets_keep(listed(l.budgets)),
            listed(l.pods),
            key,
        );
        lemma_told_together(
            sightings(listings.drop_last()),
            all_pods_of(listings.drop_last(), key),
            sightings_of(l),
            pods_of(l, key),
            key,
        );
    }
}

/// The health of a workload is that of the pods that it owns: it is known where there
/// are any; its kills for want of memory are the container statuses of these pods whose
/// last termination has the reason `OOMKilled`, its restarts those of their containers,
/// both as far as 32 bits hold them; its class is the first that one of them reports.
pub proof fn law_health_is_that_of_the_owned_pods(
    listings: Seq<PodListing>,
    key: (Seq<char>, Seq<char>, Seq<char>),
)
    ensures
        health_by_workload(sightings(listings)).dom().contains(key) <==> all_pods_of(
            listings,
            key,
        ).len() > 0,
        all_pods_of(listings, key).len() > 0 ==> {
            let health = health_by_workload(sightings(listings))[key];
            let statuses = all_statuses(all_pods_of(listings, key));
            &&& health.oom_killed_count as int == statuses.filter(
                ended_by("OOMKilled"@),
            ).len() as int % 0x1_0000_0000
            &&& health.restart_count as int == restarts(statuses) as int % 0x1_0000_0000
            &&& first_class(health.qos_class, all_pods_of(listings, key))
        },
{
    lemma_told_by_listings(listings, key);
    law_only_oom_killed_counts(all_statuses(all_pods_of(listings, key)));
}

/// A workload none of whose container statuses has `OOMKilled` as the reason of the last
/// termination has no kills for want of memory, whatever other reasons there are.
pub proof fn law_other_reasons_are_no_kills(
    listings: Seq<PodListing>,
    key: (Seq<char>, Seq<char>, Seq<char>),
)
    requires
        all_pods_of(listings, key).len() > 0,
        forall|i: int|
            #![trigger all_statuses(all_pods_of(listings, key))[i]]
            0 <= i < all_statuses(all_pods_of(listings, key)).len() ==> (all_statuses(
                all_pods_of(listings, key),
            )[i].last_termination_reason matches Some(r) ==> r@ != "OOMKilled"@),
    ensures
        health_by_workload(sightings(listings))[key].oom_killed_count == 0,
{
    law_health_is_that_of_the_owned_pods(listings, key);
    law_only_oom_killed_counts(all_statuses(all_pods_of(listings, key)));
}

/// Whether a budget guards a pod: it selects by at least one label, and the pod carries
/// each of them with the same value.
pub open spec fn guards(budget: PodDisruptionBudget, pod: Pod) -> bool {
    match (budget.match_labels, pod.labels) {
        (Some(selector), Some(labels)) => {
            &&& selector.deep_view() != Map::<Seq<char>, Seq<char>>::empty()
            &&& forall|k: Seq<char>| #[trigger]
                selector.deep_view().dom().contains(k) ==> labels.deep_view().contains_pair(
                    k,
                    selector.deep_view()[k],
                )
        },
        _ => false,
    }
}

/// The number of pods that a budget keeps; a percentage, and a negative number, keep none.
pub open spec fn kept_by(budget: PodDisruptionBudget) -> int {
    match budget.min_available {
        Some(IntOrString::Int(n)) => if n > 0 {
            n as int
        } else {
            0
        },
        _ => 0,
    }
}

/// What guards a pod is the largest number that one of the budgets over it keeps, and
/// nothing where there is none.
pub proof fn law_strictest_budget_guards_a_pod(budgets: Seq<PodDisruptionBudget>, pod: Pod)
    ensures
        forall|b: int|
            0 <= b < budgets.len() && guards(#[trigger] budgets[b], pod) ==> (floor_for(
                budgets_keep(budgets),
                pod.labels,
            ) matches Some(n) && kept_by(budgets[b]) <= n),
        floor_for(budgets_keep(budgets), pod.labels) matches Some(n) ==> exists|b: int|
            0 <= b < budgets.len() && guards(#[trigger] budgets[b], pod) && kept_by(budgets[b])
                == n,
    decreases budgets.len(),
{
    if budgets.len() > 0 {
        let init = budgets.drop_last();
        let last = budgets.len() - 1;
        law_strictest_budget_guards_a_pod(init, pod);
        assert forall|b: int| 0 <= b < init.len() implies init[b] == #[trigger] budgets[b] by {}
        let before = budgets_keep(init);
        match (budgets[last].match_labels, pod.labels) {
            (Some(selector), Some(labels)) => {
                if selector.deep_view() != Map::<Seq<char>, Seq<char>>::empty() {
                    assert(budgets_keep(budgets).drop_last() == before);
                    if selects(selector.deep_view(), labels.deep_view()) {
                        assert(guards(budgets[last], pod));
                    }
                    if guards(budgets[last], pod) {
                        assert forall|k: Seq<char>| #[trigger]
                            selector.deep_view().dom().contains(k) implies crate::table::looked_up(
                            labels.deep_view(),
                            k,
                        ) == Some(selector.deep_view()[k]) by {
                            assert(labels.deep_view().contains_pair(k, selector.deep_view()[k]));
                        }
                        assert(selects(selector.deep_view(), labels.deep_view()));
                    }
                }
            },
            _ => {},
        }
        match floor_for(budgets_keep(budgets), pod.labels) {
            Some(n) => {
                if guards(budgets[last], pod) && kept_by(budgets[last]) == n {
                } else {
                    assert(floor_for(before, pod.labels) == Some(n));
                    let b = choose|b: int|
                        0 <= b < init.len() && guards(#[trigger] init[b], pod) && kept_by(init[b])
                            == n;
                    assert(guards(budgets[b], pod));
                }
            },
            None => {},
        }
    }
}

/// A selector selects labels where all of it is among them.
pub proof fn law_selectors_are_part_of_what_they_select(
    selector: Map<Seq<char>, Seq<char>>,
    labels: Map<Seq<char>, Seq<char>>,
)
    ensures
        selects(selector, labels) <==> forall|k: Seq<char>, v: Seq<char>| #[trigger]
            selector.contains_pair(k, v) ==> labels.contains_pair(k, v),
{
    if forall|k: Seq<char>, v: Seq<char>| #[trigger]
        selector.contains_pair(k, v) ==> labels.contains_pair(k, v) {
        assert forall|k: Seq<char>| #[trigger] selector.dom().contains(
            k,
        ) implies crate::table::looked_up(labels, k) == Some(selector[k]) by {
            assert(selector.contains_pair(k, selector[k]));
        }
    }
    if selects(selector, labels) {
        assert forall|k: Seq<char>, v: Seq<char>| #[trigger]
            selector.contains_pair(k, v) implies labels.contains_pair(k, v) by {
            assert(selector.dom().contains(k));
        }
    }
}

/// Budgets keep what each of them keeps, in order: the labels that it selects by with its
/// number of pods. One that selects by no label keeps nothing.
pub proof fn law_budgets_keep_in_order(
    a: Seq<PodDisruptionBudget>,
    b: Seq<PodDisruptionBudget>,
    budget: PodDisruptionBudget,
)
    ensures
        budgets_keep(a + b) == budgets_keep(a) + budgets_keep(b),
        budget.match_labels is None ==> budgets_keep(seq![budget]).len() == 0,
        budget.match_labels matches Some(labels) ==> if labels.deep_view() == Map::<
            Seq<char>,
            Seq<char>,
        >::empty() {
            budgets_keep(seq![budget]).len() == 0
        } else {
            &&& budgets_keep(seq![budget]).len() == 1
            &&& budgets_keep(seq![budget])[0].0 == labels.deep_view()
            &&& budgets_keep(seq![budget])[0].1 == kept_by(budget)
        },
    decreases b.len(),
{
    assert(seq![budget].drop_last() == Seq::<PodDisruptionBudget>::empty());
    reveal_with_fuel(budgets_keep, 2);
    if b.len() == 0 {
        assert(a + b == a);
        assert(budgets_keep(a) + budgets_keep(b) == budgets_keep(a));
    } else {
        assert((a + b).drop_last() == a + b.drop_last());
        law_budgets_keep_in_order(a, b.drop_last(), budget);
        assert(budgets_keep(a + b) == budgets_keep(a) + budgets_keep(b));
    }
}

/// Whether `pod` of the listing `l` is one of the workload `key`'s.
pub open spec fn owned_at(
    listings: Seq<PodListing>,
    key: (Seq<char>, Seq<char>, Seq<char>),
    l: int,
    p: int,
) -> bool {
    &&& 0 <= l < listings.len()
    &&& 0 <= p < listed(listings[l].pods).len()
    &&& listings[l].namespace@ == key.0
    &&& listed(listings[l].pods)[p].name is Some
    &&& workload_of(listed(listings[l].pods)[p], listed(listings[l].replica_sets)) == Some(
        (key.1, key.2),
    )
}

/// Whether the budget `b` of the listing `l` guards its pod `p`.
pub open spec fn guarded_at(listings: Seq<PodListing>, l: int, p: int, b: int) -> bool {
    &&& 0 <= b < listed(listings[l].budgets).len()
    &&& guards(listed(listings[l].budgets)[b], listed(listings[l].pods)[p])
}

/// How the pod `p` of the listing `l` is seen.
spec fn seen_at(listings: Seq<PodListing>, l: int, p: int) -> Option<Sighting> {
    if 0 <= l < listings.len() && 0 <= p < listed(listings[l].pods).len() {
        seen_as(
            listings[l].namespace@,
            listed(listings[l].replica_sets),
            budgets_keep(listed(listings[l].budgets)),
            listed(listings[l].pods)[p],
        )
    } else {
        None
    }
}

proof fn lemma_total_floor(s: Seq<Sighting>, key: (Seq<char>, Seq<char>, Seq<char>))
    ensures
        forall|i: int|
            0 <= i < s.len() && workload_key(#[trigger] s[i]) == key ==> (s[i].floor matches Some(m)
                ==> (total_floor(s, key) matches Some(n) && m <= n)),
        total_floor(s, key) is Some ==> exists|i: int|
            0 <= i < s.len() && workload_key(#[trigger] s[i]) == key && s[i].floor == total_floor(
                s,
                key,
            ),
    decreases s.len(),
{
    if s.len() > 0 {
        let init = s.drop_last();
        lemma_total_floor(init, key);
        assert forall|i: int| 0 <= i < init.len() implies init[i] == #[trigger] s[i] by {}
        let last = s.len() - 1;
        if total_floor(s, key) is Some {
            if workload_key(s[last]) == key && s[last].floor == total_floor(s, key) {
            } else {
                assert(total_floor(init, key) == total_floor(s, key));
                let i = choose|i: int|
                    0 <= i < init.len() && workload_key(#[trigger] init[i]) == key && init[i].floor
                        == total_floor(init, key);
                assert(workload_key(s[i]) == key);
            }
        }
    }
}

proof fn lemma_pods_are_seen(
    namespace: Seq<char>,
    sets: Seq<ReplicaSet>,
    kept: Seq<(Map<Seq<char>, Seq<char>>, u32)>,
    pods: Seq<Pod>,
)
    ensures
        forall|p: int|
            0 <= p < pods.len() ==> (seen_as(namespace, sets, kept, #[trigger] pods[p]) matches Some(
                x,
            ) ==> sightings_in(namespace, sets, kept, pods).contains(x)),
        forall|x: Sighting| #[trigger]
            sightings_in(namespace, sets, kept, pods).contains(x) ==> exists|p: int|
                0 <= p < pods.len() && seen_as(namespace, sets, kept, #[trigger] pods[p]) == Some(x),
    decreases pods.len(),
{
    if pods.len() > 0 {
        let init = pods.drop_last();
        let last = pods.len() - 1;
        lemma_pods_are_seen(namespace, sets, kept, init);
        let before = sightings_in(namespace, sets, kept, init);
        let now = sightings_in(namespace, sets, kept, pods);
        assert forall|p: int| 0 <= p < init.len() implies init[p] == #[trigger] pods[p] by {}
        assert forall|x: Sighting| before.contains(x) implies now.contains(x) by {
            let i = choose|i: int| 0 <= i < before.len() && before[i] == x;
            assert(now[i] == x);
        }
        assert forall|p: int| 0 <= p < pods.len() implies (seen_as(
            namespace,
            sets,
            kept,
            #[trigger] pods[p],
        ) matches Some(x) ==> now.contains(x)) by {
            if p < last {
                assert(init[p] == pods[p]);
            } else {
                match seen_as(namespace, sets, kept, pods[last]) {
                    Some(x) => {
                        assert(now[before.len() as int] == x);
                    },
                    None => {},
                }
            }
        }
        assert forall|x: Sighting| #[trigger] now.contains(x) implies exists|p: int|
            0 <= p < pods.len() && seen_as(namespace, sets, kept, #[trigger] pods[p]) == Some(
                x,
            ) by {
            if seen_as(namespace, sets, kept, pods[last]) != Some(x) {
                let i = choose|i: int| 0 <= i < now.len() && now[i] == x;
                assert(before[i] == x);
                assert(before.contains(x));
                let p = choose|p: int|
                    0 <= p < init.len() && seen_as(namespace, sets, kept, #[trigger] init[p])
                        == Some(x);
                assert(seen_as(namespace, sets, kept, pods[p]) == Some(x));
            }
        }
    }
}

proof fn lemma_listings_are_seen(listings: Seq<PodListing>)
    ensures
        forall|l: int, p: int|
            #[trigger] seen_at(listings, l, p) matches Some(x) ==> sightings(listings).contains(x),
        forall|x: Sighting| #[trigger]
            sightings(listings).contains(x) ==> exists|l: int, p: int| #[trigger]
                seen_at(listings, l, p) == Some(x),
    decreases listings.len(),
{
    if listings.len() > 0 {
        let init = listings.drop_last();
        let last = listings.len() - 1;
        let listing = listings[last];
        let pods = listed(listing.pods);
        lemma_listings_are_seen(init);
        lemma_pods_are_seen(
            listing.namespace@,
            listed(listing.replica_sets),
            budgets_keep(listed(listing.budgets)),
            pods,
        );
        let a = sightings(init);
        let b = sightings_of(listing);
        let whole = sightings(listings);
        assert forall|x: Sighting| a.contains(x) || b.contains(x) implies whole.contains(x) by {
            if a.contains(x) {
                let i = choose|i: int| 0 <= i < a.len() && a[i] == x;
                assert(whole[i] == x);
            } else {
                let i = choose|i: int| 0 <= i < b.len() && b[i] == x;
                assert(whole[a.len() + i] == x);
            }
        }
        assert forall|l: int, p: int| #[trigger]
            seen_at(listings, l, p) matches Some(x) implies whole.contains(
            seen_at(listings, l, p)->0,
        ) by {
            if l < last {
                assert(init[l] == listings[l]);
                assert(seen_at(init, l, p) == seen_at(listings, l, p));
            } else {
                assert(seen_as(
                    listing.namespace@,
                    listed(listing.replica_sets),
                    budgets_keep(listed(listing.budgets)),
                    pods[p],
                ) == seen_at(listings, l, p));
            }
        }
        assert forall|x: Sighting| #[trigger] whole.contains(x) implies exists|l: int, p: int|
            #[trigger] seen_at(listings, l, p) == Some(x) by {
            let i = choose|i: int| 0 <= i < whole.len() && whole[i] == x;
            if i < a.len() {
                assert(a[i] == x);
                assert(a.contains(x));
                let (l, p) = choose|l: int, p: int| #[trigger] seen_at(init, l, p) == Some(x);
                assert(init[l] == listings[l]);
                assert(seen_at(listings, l, p) == Some(x));
            } else {
                assert(b[i - a.len()] == x);
                assert(b.contains(x));
                let p = choose|p: int|
                    0 <= p < pods.len() && seen_as(
                        listing.namespace@,
                        listed(listing.replica_sets),
                        budgets_keep(listed(listing.budgets)),
                        #[trigger] pods[p],
                    ) == Some(x);
                assert(seen_at(listings, last, p) == Some(x));
            }
        }
    }
}

/// A workload has a disruption budget exactly where a budget of its namespace guards one
/// of its pods, and the number of pods that must stay is the largest that such a budget
/// keeps.
pub proof fn law_workload_has_the_strictest_budget_over_its_pods(
    listings: Seq<PodListing>,
    key: (Seq<char>, Seq<char>, Seq<char>),
)
    requires
        all_pods_of(listings, key).len() > 0,
    ensures
        forall|l: int, p: int, b: int| #[trigger]
            owned_at(listings, key, l, p) && #[trigger] guarded_at(listings, l, p, b) ==> {
                let health = health_by_workload(sightings(listings))[key];
                health.has_pdb && kept_by(listed(listings[l].budgets)[b])
                    <= health.pdb_min_available
            },
        health_by_workload(sightings(listings))[key].has_pdb ==> exists|l: int, p: int, b: int|
            #[trigger] owned_at(listings, key, l, p) && #[trigger] guarded_at(listings, l, p, b)
                && kept_by(listed(listings[l].budgets)[b]) == health_by_workload(
                sightings(listings),
            )[key].pdb_min_available,
        !health_by_workload(sightings(listings))[key].has_pdb ==> health_by_workload(
            sightings(listings),
        )[key].pdb_min_available == 0,
{
    law_health_is_that_of_the_owned_pods(listings, key);
    let s = sightings(listings);
    let health = health_by_workload(s)[key];
    assert(health == health_of(s, key));
    lemma_total_floor(s, key);
    lemma_listings_are_seen(listings);
    assert forall|l: int, p: int, b: int| #[trigger]
        owned_at(listings, key, l, p) && #[trigger] guarded_at(listings, l, p, b) implies {
        health.has_pdb && kept_by(listed(listings[l].budgets)[b]) <= health.pdb_min_available
    } by {
        let pod = listed(listings[l].pods)[p];
        law_strictest_budget_guards_a_pod(listed(listings[l].budgets), pod);
        assert(guards(listed(listings[l].budgets)[b], pod));
        match seen_at(listings, l, p) {
            Some(x) => {
                let i = choose|i: int| 0 <= i < s.len() && s[i] == x;
                assert(workload_key(s[i]) == key);
            },
            None => {},
        }
    }
    if health.has_pdb {
        let i = choose|i: int|
            0 <= i < s.len() && workload_key(#[trigger] s[i]) == key && s[i].floor == total_floor(
                s,
                key,
            );
        assert(s.contains(s[i]));
        let (l, p) = choose|l: int, p: int| #[trigger] seen_at(listings, l, p) == Some(s[i]);
        assert(owned_at(listings, key, l, p));
        let pod = listed(listings[l].pods)[p];
        law_strictest_budget_guards_a_pod(listed(listings[l].budgets), pod);
        let b = choose|b: int|
            0 <= b < listed(listings[l].budgets).len() && guards(
                #[trigger] listed(listings[l].budgets)[b],
                pod,
            ) && kept_by(listed(listings[l].budgets)[b]) == health.pdb_min_available;
        assert(guarded_at(listings, l, p, b));
    }
}

/// Whether the pod `p` of the listing `l` is in `namespace`, is called `name` and has an
/// owner that is a workload.
pub open spec fn named_at(
    listings: Seq<PodListing>,
    namespace: Seq<char>,
    name: Seq<char>,
    l: int,
    p: int,
) -> bool {
    &&& 0 <= l < listings.len()
    &&& listings[l].namespace@ == namespace
    &&& named_in(listed(listings[l].pods), listed(listings[l].replica_sets), name, p)
}

/// Whether the pod `p` of `pods` is called `name` and has an owner that is a workload.
pub open spec fn named_in(
    pods: Seq<Pod>,
    sets: Seq<ReplicaSet>,
    name: Seq<char>,
    p: int,
) -> bool {
    &&& 0 <= p < pods.len()
    &&& pods[p].name matches Some(n) && n@ == name
    &&& workload_of(pods[p], sets) is Some
}

proof fn lemma_owners_join(a: Seq<Sighting>, b: Seq<Sighting>)
    ensures
        owners_by_pod(a + b) == owners_by_pod(a).union_prefer_right(owners_by_pod(b)),
    decreases b.len(),
{
    if b.len() == 0 {
        assert(a + b == a);
        assert(owners_by_pod(a).union_prefer_right(owners_by_pod(b)) == owners_by_pod(a));
    } else {
        assert((a + b).drop_last() == a + b.drop_last());
        lemma_owners_join(a, b.drop_last());
        assert(owners_by_pod(a + b) == owners_by_pod(a).union_prefer_right(owners_by_pod(b)));
    }
}

proof fn lemma_owners_in(
    namespace: Seq<char>,
    sets: Seq<ReplicaSet>,
    kept: Seq<(Map<Seq<char>, Seq<char>>, u32)>,
    pods: Seq<Pod>,
    key: (Seq<char>, Seq<char>),
    p: int,
)
    ensures
        namespace == key.0 && named_in(pods, sets, key.1, p) && (forall|q: int|
            p < q ==> !#[trigger] named_in(pods, sets, key.1, q)) ==> owners_by_pod(
            sightings_in(namespace, sets, kept, pods),
        ).contains_pair(key, workload_of(pods[p], sets)->0),
        namespace != key.0 || (forall|q: int| !#[trigger] named_in(pods, sets, key.1, q))
            ==> !owners_by_pod(sightings_in(namespace, sets, kept, pods)).dom().contains(key),
    decreases pods.len(),
{
    if pods.len() > 0 {
        let init = pods.drop_last();
        let last = pods.len() - 1;
        lemma_owners_in(namespace, sets, kept, init, key, p);
        let before = sightings_in(namespace, sets, kept, init);
        match seen_as(namespace, sets, kept, pods[last]) {
            Some(x) => {
                assert(before.push(x).drop_last() == before);
                assert(workload_of(pods[last], sets) == Some((x.workload_type, x.workload_name)));
            },
            None => {},
        }
        assert forall|q: int| 0 <= q < last implies #[trigger] named_in(init, sets, key.1, q)
            == named_in(pods, sets, key.1, q) by {
            assert(init[q] == pods[q]);
        }
        if namespace == key.0 && named_in(pods, sets, key.1, p) && (forall|q: int|
            p < q ==> !#[trigger] named_in(pods, sets, key.1, q)) {
            if p < last {
                assert(!named_in(pods, sets, key.1, last));
                assert forall|q: int| p < q implies !#[trigger] named_in(
                    init,
                    sets,
                    key.1,
                    q,
                ) by {
                    assert(!named_in(pods, sets, key.1, q));
                }
                assert(named_in(init, sets, key.1, p));
                assert(init[p] == pods[p]);
            }
        }
        if namespace == key.0 && (forall|q: int| !#[trigger] named_in(pods, sets, key.1, q)) {
            assert(!named_in(pods, sets, key.1, last));
            assert forall|q: int| !#[trigger] named_in(init, sets, key.1, q) by {
                assert(!named_in(pods, sets, key.1, q));
            }
        }
    }
}

/// The owner of a pod is the workload that owns the last pod listed under its namespace
/// and name that a workload owns; where there is none, no owner is known.
pub proof fn law_last_pod_of_a_name_tells_the_owner(
    listings: Seq<PodListing>,
    key: (Seq<char>, Seq<char>),
    l: int,
    p: int,
)
    ensures
        named_at(listings, key.0, key.1, l, p) && (forall|k: int, q: int|
            k > l || (k == l && q > p) ==> !#[trigger] named_at(listings, key.0, key.1, k, q))
            ==> owners_by_pod(sightings(listings)).contains_pair(
            key,
            workload_of(listed(listings[l].pods)[p], listed(listings[l].replica_sets))->0,
        ),
        (forall|k: int, q: int| !#[trigger] named_at(listings, key.0, key.1, k, q))
            ==> !owners_by_pod(sightings(listings)).dom().contains(key),
    decreases listings.len(),
{
    if listings.len() > 0 {
        let init = listings.drop_last();
        let last = listings.len() - 1;
        let listing = listings[last];
        let pods = listed(listing.pods);
        let sets = listed(listing.replica_sets);
        law_last_pod_of_a_name_tells_the_owner(init, key, l, p);
        lemma_owners_in(
            listing.namespace@,
            sets,
            budgets_keep(listed(listing.budgets)),
            pods,
            key,
            p,
        );
        lemma_owners_join(sightings(init), sightings_of(listing));
        assert forall|k: int, q: int| k < last implies #[trigger] named_at(
            init,
            key.0,
            key.1,
            k,
            q,
        ) == named_at(listings, key.0, key.1, k, q) by {
            if 0 <= k {
                assert(init[k] == listings[k]);
            }
        }
        if listing.namespace@ == key.0 {
            assert forall|q: int| #[trigger] named_in(pods, sets, key.1, q) == named_at(
                listings,
                key.0,
                key.1,
                last,
                q,
            ) by {}
        }
        if named_at(listings, key.0, key.1, l, p) && (forall|k: int, q: int|
            k > l || (k == l && q > p) ==> !#[trigger] named_at(listings, key.0, key.1, k, q)) {
            if l < last {
                assert forall|q: int| listing.namespace@ == key.0 implies !#[trigger] named_in(
                    pods,
                    sets,
                    key.1,
                    q,
                ) by {
                    assert(!named_at(listings, key.0, key.1, last, q));
                }
                assert forall|k: int, q: int|
                    k > l || (k == l && q > p) implies !#[trigger] named_at(
                    init,
                    key.0,
                    key.1,
                    k,
                    q,
                ) by {
                    assert(!named_at(listings, key.0, key.1, k, q));
                }
                assert(named_at(init, key.0, key.1, l, p));
                assert(init[l] == listings[l]);
            } else {
                assert forall|q: int| p < q implies !#[trigger] named_in(
                    pods,
                    sets,
                    key.1,
                    q,
                ) by {
                    assert(!named_at(listings, key.0, key.1, last, q));
                }
            }
        }
        if forall|k: int, q: int| !#[trigger] named_at(listings, key.0, key.1, k, q) {
            assert forall|k: int, q: int| !#[trigger] named_at(init, key.0, key.1, k, q) by {
                assert(!named_at(listings, key.0, key.1, k, q));
            }
            assert forall|q: int| listing.namespace@ == key.0 implies !#[trigger] named_in(
                pods,
                sets,
                key.1,
                q,
            ) by {
                assert(!named_at(listings, key.0, key.1, last, q));
            }
        }
    }
}

} // verus!
