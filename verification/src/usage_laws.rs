//! What holds of the usage that the metrics server reports.

use crate::json::Json;
use crate::table::{entry_under, keys_distinct, lemma_found, looked_up, map_of};
use crate::usage::{
    container_metric, container_metrics, item_key, item_metrics, items_metrics, pod_metrics,
    pod_readings, readings, reported, samples, usage_by_container, ContainerMetric, MetricModel,
    Reading,
};
use vstd::multiset::Multiset;
use vstd::prelude::*;

verus! {

/// A container reports where it has a name and a usage, with whichever of the two
/// quantities its usage holds.
pub proof fn law_containers_report_by_name(container: Json)
    ensures
        container_metric(container) is Some <==> container.member_text("name"@) is Some
            && container.member("usage"@) is Some,
        container_metric(container) matches Some(m) ==> container.member_text("name"@) == Some(
            m.name,
        ) && (container.member("usage"@) matches Some(usage) && m.cpu == usage.member_text("cpu"@)
            && m.memory == usage.member_text("memory"@)),
{
}

/// The containers of a pod report one by one, in order; one that does not report leaves
/// no trace.
pub proof fn law_containers_report_in_order(a: Seq<Json>, b: Seq<Json>, container: Json)
    ensures
        container_metrics(a + b) == container_metrics(a) + container_metrics(b),
        container_metrics(Seq::empty()).len() == 0,
        container_metric(container) is None ==> container_metrics(seq![container]).len() == 0,
        container_metric(container) matches Some(m) ==> container_metrics(seq![container])
            == seq![m],
    decreases b.len(),
{
    assert(seq![container].drop_last() == Seq::<Json>::empty());
    reveal_with_fuel(container_metrics, 2);
    if b.len() == 0 {
        assert(a + b == a);
        assert(container_metrics(a) + container_metrics(b) == container_metrics(a));
    } else {
        assert((a + b).drop_last() == a + b.drop_last());
        law_containers_report_in_order(a, b.drop_last(), container);
        assert(container_metrics(a + b) == container_metrics(a) + container_metrics(b));
    }
}

/// Whether a pod of the metrics body is the one of this namespace and name, and a
/// container of it reports.
pub open spec fn reports_as(item: Json, namespace: Seq<char>, name: Seq<char>) -> bool {
    &&& item.member("metadata"@) matches Some(metadata) && (match metadata.member_text(
        "namespace"@,
    ) {
        Some(text) => text == namespace,
        None => namespace.len() == 0,
    }) && (match metadata.member_text("name"@) {
        Some(text) => text == name,
        None => name.len() == 0,
    })
    &&& item.member_or_null("containers"@).as_elements() matches Some(containers) && exists|
        i: int,
    |
        0 <= i < containers.len() && container_metric(#[trigger] containers[i]) is Some
}

proof fn lemma_some_report(containers: Seq<Json>)
    ensures
        container_metrics(containers).len() > 0 <==> exists|i: int|
            0 <= i < containers.len() && container_metric(#[trigger] containers[i]) is Some,
    decreases containers.len(),
{
    if containers.len() > 0 {
        let init = containers.drop_last();
        let last = containers.len() - 1;
        lemma_some_report(init);
        assert forall|i: int| 0 <= i < init.len() implies init[i] == #[trigger] containers[i] by {}
        if container_metric(containers[last]) is None {
            if container_metrics(init).len() > 0 {
                let i = choose|i: int|
                    0 <= i < init.len() && container_metric(#[trigger] init[i]) is Some;
                assert(container_metric(containers[i]) is Some);
            } else if exists|i: int|
                0 <= i < containers.len() && container_metric(#[trigger] containers[i]) is Some {
                let i = choose|i: int|
                    0 <= i < containers.len() && container_metric(
                        #[trigger] containers[i],
                    ) is Some;
                assert(container_metric(init[i]) is Some);
            }
        }
    }
}

proof fn lemma_reports_as(item: Json, namespace: Seq<char>, name: Seq<char>)
    ensures
        reports_as(item, namespace, name) <==> (item.member("metadata"@) matches Some(metadata)
            && item_key(metadata) == (namespace, name) && item_metrics(item).len() > 0),
{
    match item.member_or_null("containers"@).as_elements() {
        Some(containers) => {
            lemma_some_report(containers);
        },
        None => {},
    }
    match item.member("metadata"@) {
        Some(metadata) => {
            assert(item_key(metadata).0 == namespace <==> (match metadata.member_text(
                "namespace"@,
            ) {
                Some(text) => text == namespace,
                None => namespace.len() == 0,
            })) by {
                if namespace.len() == 0 {
                    assert(namespace == Seq::<char>::empty());
                }
            }
            assert(item_key(metadata).1 == name <==> (match metadata.member_text("name"@) {
                Some(text) => text == name,
                None => name.len() == 0,
            })) by {
                if name.len() == 0 {
                    assert(name == Seq::<char>::empty());
                }
            }
        },
        None => {},
    }
}

/// The metrics of a pod are those of the last pod of its namespace and name in the
/// metrics body of which a container reports; a pod without one has none.
pub proof fn law_metrics_are_those_of_the_last_report(
    body: Json,
    items: Seq<Json>,
    key: (Seq<char>, Seq<char>),
    i: int,
)
    requires
        body.member_or_null("items"@).as_elements() == Some(items),
    ensures
        0 <= i < items.len() && reports_as(items[i], key.0, key.1) && (forall|j: int|
            i < j < items.len() ==> !reports_as(#[trigger] items[j], key.0, key.1)) ==> (
        items[i].member_or_null("containers"@).as_elements() matches Some(containers)
            && pod_metrics(body).contains_pair(key, container_metrics(containers))),
        (forall|j: int| 0 <= j < items.len() ==> !reports_as(#[trigger] items[j], key.0, key.1))
            ==> !pod_metrics(body).dom().contains(key),
{
    lemma_last_report(items, key, i);
}

proof fn lemma_last_report(items: Seq<Json>, key: (Seq<char>, Seq<char>), i: int)
    ensures
        0 <= i < items.len() && reports_as(items[i], key.0, key.1) && (forall|j: int|
            i < j < items.len() ==> !reports_as(#[trigger] items[j], key.0, key.1))
            ==> items_metrics(items).contains_pair(key, item_metrics(items[i])),
        (forall|j: int| 0 <= j < items.len() ==> !reports_as(#[trigger] items[j], key.0, key.1))
            ==> !items_metrics(items).dom().contains(key),
    decreases items.len(),
{
    if items.len() > 0 {
        let init = items.drop_last();
        let last = items.len() - 1;
        lemma_last_report(init, key, i);
        lemma_reports_as(items[last], key.0, key.1);
        assert forall|j: int| 0 <= j < init.len() implies init[j] == #[trigger] items[j] by {}
        if forall|j: int|
            0 <= j < items.len() ==> !reports_as(#[trigger] items[j], key.0, key.1) {
            assert(!reports_as(items[last], key.0, key.1));
            assert forall|j: int| 0 <= j < init.len() implies !reports_as(
                #[trigger] init[j],
                key.0,
                key.1,
            ) by {
                assert(!reports_as(items[j], key.0, key.1));
            }
        }
        if 0 <= i < last && reports_as(items[i], key.0, key.1) && (forall|j: int|
            i < j < items.len() ==> !reports_as(#[trigger] items[j], key.0, key.1)) {
            assert(!reports_as(items[last], key.0, key.1));
            assert(reports_as(init[i], key.0, key.1));
            assert forall|j: int| i < j < init.len() implies !reports_as(
                #[trigger] init[j],
                key.0,
                key.1,
            ) by {
                assert(!reports_as(items[j], key.0, key.1));
            }
        }
    }
}

/// A metrics body without a list of items holds no metrics.
pub proof fn law_no_items_no_metrics(body: Json)
    ensures
        body.member_or_null("items"@).as_elements() is None ==> pod_metrics(body).dom()
            =~= Set::empty(),
{
}

/// The CPU and the memory quantity of a container.
pub open spec fn quantities(metric: MetricModel) -> (Option<Seq<char>>, Option<Seq<char>>) {
    (metric.cpu, metric.memory)
}

/// Whether a container is called `name`.
pub open spec fn called(name: Seq<char>) -> spec_fn(MetricModel) -> bool {
    |metric: MetricModel| metric.name == name
}

/// What the containers called `name` report.
pub open spec fn reports_of(containers: Seq<MetricModel>, name: Seq<char>) -> Seq<
    (Option<Seq<char>>, Option<Seq<char>>),
> {
    containers.filter(called(name)).map_values(|metric: MetricModel| quantities(metric))
}

/// What the containers called `name` of all the pods report together.
pub open spec fn reports_together(
    metrics: Map<(Seq<char>, Seq<char>), Seq<MetricModel>>,
    pods: Seq<(Seq<char>, Seq<char>)>,
    name: Seq<char>,
) -> Multiset<(Option<Seq<char>>, Option<Seq<char>>)>
    decreases pods.len(),
{
    if pods.len() == 0 {
        Multiset::empty()
    } else {
        reports_together(metrics, pods.drop_last(), name).add(
            reports_of(metrics[pods.last()], name).to_multiset(),
        )
    }
}

/// Whether `pods` holds, each once, the pods with metrics in the namespace `workload.0`
/// whose owner is the workload called `workload.2` of type `workload.1`.
pub open spec fn pods_with_metrics(
    pods: Seq<(Seq<char>, Seq<char>)>,
    metrics: Map<(Seq<char>, Seq<char>), Seq<MetricModel>>,
    owners: Map<(Seq<char>, Seq<char>), (Seq<char>, Seq<char>)>,
    workload: (Seq<char>, Seq<char>, Seq<char>),
) -> bool {
    &&& pods.no_duplicates()
    &&& forall|pod: (Seq<char>, Seq<char>)| #[trigger]
        pods.contains(pod) <==> pod.0 == workload.0 && metrics.dom().contains(pod)
            && owners.contains_pair(pod, (workload.1, workload.2))
}

proof fn lemma_reports_removed(
    metrics: Map<(Seq<char>, Seq<char>), Seq<MetricModel>>,
    pods: Seq<(Seq<char>, Seq<char>)>,
    i: int,
    name: Seq<char>,
)
    requires
        0 <= i < pods.len(),
    ensures
        reports_together(metrics, pods, name) == reports_together(
            metrics,
            pods.remove(i),
            name,
        ).add(reports_of(metrics[pods[i]], name).to_multiset()),
    decreases pods.len(),
{
    if i == pods.len() - 1 {
        assert(pods.remove(i) == pods.drop_last());
    } else {
        lemma_reports_removed(metrics, pods.drop_last(), i, name);
        assert(pods.remove(i).drop_last() == pods.drop_last().remove(i));
        assert(pods.remove(i).last() == pods.last());
        let a = reports_together(metrics, pods.drop_last().remove(i), name);
        let b = reports_of(metrics[pods[i]], name).to_multiset();
        let c = reports_of(metrics[pods.last()], name).to_multiset();
        assert(a.add(b).add(c) =~= a.add(c).add(b));
    }
}

/// What is reported together does not depend on the order of the pods.
pub proof fn law_reports_ignore_the_order_of_pods(
    metrics: Map<(Seq<char>, Seq<char>), Seq<MetricModel>>,
    a: Seq<(Seq<char>, Seq<char>)>,
    b: Seq<(Seq<char>, Seq<char>)>,
    name: Seq<char>,
)
    requires
        a.no_duplicates(),
        b.no_duplicates(),
        forall|pod: (Seq<char>, Seq<char>)| #[trigger] a.contains(pod) <==> b.contains(pod),
    ensures
        reports_together(metrics, a, name) == reports_together(metrics, b, name),
    decreases a.len(),
{
    if a.len() == 0 {
        if b.len() > 0 {
            assert(b.contains(b[0]));
            assert(a.contains(b[0]));
        }
    } else {
        let pod = a.last();
        assert(a.contains(pod));
        let i = choose|i: int| 0 <= i < b.len() && b[i] == pod;
        lemma_reports_removed(metrics, b, i, name);
        let rest = b.remove(i);
        let init = a.drop_last();
        assert forall|p: (Seq<char>, Seq<char>)| #[trigger]
            init.contains(p) <==> rest.contains(p) by {
            if init.contains(p) {
                let j = choose|j: int| 0 <= j < init.len() && init[j] == p;
                assert(a[j] == p);
                assert(a.contains(p));
                let k = choose|k: int| 0 <= k < b.len() && b[k] == p;
                assert(k != i);
                if k < i {
                    assert(rest[k] == p);
                } else {
                    assert(rest[k - 1] == p);
                }
            }
            if rest.contains(p) {
                let k = choose|k: int| 0 <= k < rest.len() && rest[k] == p;
                if k < i {
                    assert(b[k] == p);
                } else {
                    assert(b[k + 1] == p);
                }
                assert(b.contains(p));
                assert(a.contains(p));
                let j = choose|j: int| 0 <= j < a.len() && a[j] == p;
                assert(j < a.len() - 1);
                assert(init[j] == p);
            }
        }
        law_reports_ignore_the_order_of_pods(metrics, init, rest, name);
    }
}

/// The keys of the entries that belong to the workload, in order.
spec fn keys_of(
    entries: Seq<((String, String), Vec<ContainerMetric>)>,
    owners: Map<(Seq<char>, Seq<char>), (Seq<char>, Seq<char>)>,
    workload: (Seq<char>, Seq<char>, Seq<char>),
) -> Seq<(Seq<char>, Seq<char>)>
    decreases entries.len(),
{
    if entries.len() == 0 {
        Seq::empty()
    } else {
        let before = keys_of(entries.drop_last(), owners, workload);
        let pod = entries.last().0.deep_view();
        if pod.0 == workload.0 && owners.contains_pair(pod, (workload.1, workload.2)) {
            before.push(pod)
        } else {
            before
        }
    }
}

proof fn lemma_samples_join(
    a: Seq<Reading>,
    b: Seq<Reading>,
    key: (Seq<char>, Seq<char>, Seq<char>, Seq<char>),
)
    ensures
        samples(a + b, key) == samples(a, key) + samples(b, key),
    decreases b.len(),
{
    if b.len() == 0 {
        assert(a + b == a);
        assert(samples(a, key) + samples(b, key) == samples(a, key));
    } else {
        assert((a + b).drop_last() == a + b.drop_last());
        lemma_samples_join(a, b.drop_last(), key);
        assert(samples(a + b, key) == samples(a, key) + samples(b, key));
    }
}

proof fn lemma_samples_of_pod(
    namespace: Seq<char>,
    owner: (Seq<char>, Seq<char>),
    containers: Seq<MetricModel>,
    key: (Seq<char>, Seq<char>, Seq<char>, Seq<char>),
)
    ensures
        samples(pod_readings(namespace, owner, containers), key) == if (
            namespace,
            owner.0,
            owner.1,
        ) == (key.0, key.1, key.2) {
            reports_of(containers, key.3)
        } else {
            Seq::empty()
        },
    decreases containers.len(),
{
    reveal(Seq::filter);
    if containers.len() > 0 {
        let init = containers.drop_last();
        lemma_samples_of_pod(namespace, owner, init, key);
        let r = pod_readings(namespace, owner, containers);
        assert(r.drop_last() == pod_readings(namespace, owner, init));
        assert(containers.filter(called(key.3)) == if containers.last().name == key.3 {
            init.filter(called(key.3)).push(containers.last())
        } else {
            init.filter(called(key.3))
        });
        assert(reports_of(containers, key.3) == if containers.last().name == key.3 {
            reports_of(init, key.3).push(quantities(containers.last()))
        } else {
            reports_of(init, key.3)
        });
    } else {
        assert(reports_of(containers, key.3) == Seq::<
            (Option<Seq<char>>, Option<Seq<char>>),
        >::empty());
    }
}

proof fn lemma_samples_are_reports(
    entries: Seq<((String, String), Vec<ContainerMetric>)>,
    metrics: Map<(Seq<char>, Seq<char>), Seq<MetricModel>>,
    owners: Map<(Seq<char>, Seq<char>), (Seq<char>, Seq<char>)>,
    key: (Seq<char>, Seq<char>, Seq<char>, Seq<char>),
)
    requires
        forall|i: int|
            0 <= i < entries.len() ==> metrics[#[trigger] entries[i].0.deep_view()]
                == entries[i].1.deep_view(),
    ensures
        samples(readings(entries, owners), key).to_multiset() == reports_together(
            metrics,
            keys_of(entries, owners, (key.0, key.1, key.2)),
            key.3,
        ),
    decreases entries.len(),
{
    let workload = (key.0, key.1, key.2);
    if entries.len() == 0 {
        samples(readings(entries, owners), key).to_multiset_ensures();
        assert(samples(readings(entries, owners), key).to_multiset() =~= Multiset::empty());
    } else {
        let init = entries.drop_last();
        assert forall|i: int| 0 <= i < init.len() implies metrics[#[trigger] init[i].0.deep_view()]
            == init[i].1.deep_view() by {
            assert(init[i] == entries[i]);
            assert(metrics[entries[i].0.deep_view()] == entries[i].1.deep_view());
        }
        lemma_samples_are_reports(init, metrics, owners, key);
        let (pod, containers) = entries.last();
        let at = pod.deep_view();
        assert(at.0 == pod.0@);
        assert(metrics[entries[entries.len() - 1].0.deep_view()] == containers.deep_view());
        let before = readings(init, owners);
        match looked_up(owners, at) {
            Some(owner) => {
                let these = pod_readings(pod.0@, owner, containers.deep_view());
                lemma_samples_join(before, these, key);
                lemma_samples_of_pod(pod.0@, owner, containers.deep_view(), key);
                vstd::seq_lib::lemma_multiset_commutative(
                    samples(before, key),
                    samples(these, key),
                );
                if (at.0, owner.0, owner.1) == workload {
                    assert(owners.contains_pair(at, (workload.1, workload.2)));
                    let keys = keys_of(init, owners, workload);
                    assert(keys.push(at).drop_last() == keys);
                } else {
                    assert(!(at.0 == workload.0 && owners.contains_pair(
                        at,
                        (workload.1, workload.2),
                    )));
                    assert(samples(before, key) + samples(these, key) == samples(before, key));
                }
            },
            None => {},
        }
    }
}

proof fn lemma_keys_of(
    entries: Seq<((String, String), Vec<ContainerMetric>)>,
    owners: Map<(Seq<char>, Seq<char>), (Seq<char>, Seq<char>)>,
    workload: (Seq<char>, Seq<char>, Seq<char>),
)
    requires
        keys_distinct(entries),
    ensures
        keys_of(entries, owners, workload).no_duplicates(),
        forall|pod: (Seq<char>, Seq<char>)| #[trigger]
            keys_of(entries, owners, workload).contains(pod) <==> pod.0 == workload.0 && (exists|
                i: int,
            |
                0 <= i < entries.len() && #[trigger] entries[i].0.deep_view() == pod)
                && owners.contains_pair(pod, (workload.1, workload.2)),
    decreases entries.len(),
{
    if entries.len() > 0 {
        let init = entries.drop_last();
        let last = entries.len() - 1;
        assert forall|i: int| 0 <= i < init.len() implies init[i] == #[trigger] entries[i] by {}
        assert forall|i: int, j: int|
            0 <= i < init.len() && 0 <= j < init.len() && #[trigger] init[i].0.deep_view()
                == #[trigger] init[j].0.deep_view() implies i == j by {
            assert(entries[i].0.deep_view() == entries[j].0.deep_view());
        }
        lemma_keys_of(init, owners, workload);
        let before = keys_of(init, owners, workload);
        let keys = keys_of(entries, owners, workload);
        let at = entries[last].0.deep_view();
        if before.contains(at) {
            let i = choose|i: int|
                0 <= i < init.len() && #[trigger] init[i].0.deep_view() == at;
            assert(entries[i].0.deep_view() == entries[last].0.deep_view());
        }
        assert forall|pod: (Seq<char>, Seq<char>)| #[trigger] keys.contains(pod) <==> pod.0
            == workload.0 && (exists|i: int|
            0 <= i < entries.len() && #[trigger] entries[i].0.deep_view() == pod)
            && owners.contains_pair(pod, (workload.1, workload.2)) by {
            if keys.contains(pod) {
                let k = choose|k: int| 0 <= k < keys.len() && keys[k] == pod;
                if k < before.len() {
                    assert(before[k] == pod);
                    assert(before.contains(pod));
                    let i = choose|i: int|
                        0 <= i < init.len() && #[trigger] init[i].0.deep_view() == pod;
                    assert(entries[i].0.deep_view() == pod);
                } else {
                    assert(entries[last].0.deep_view() == pod);
                }
            }
            if pod.0 == workload.0 && (exists|i: int|
                0 <= i < entries.len() && #[trigger] entries[i].0.deep_view() == pod)
                && owners.contains_pair(pod, (workload.1, workload.2)) {
                let i = choose|i: int|
                    0 <= i < entries.len() && #[trigger] entries[i].0.deep_view() == pod;
                if i < last {
                    assert(init[i].0.deep_view() == pod);
                    assert(before.contains(pod));
                    let k = choose|k: int| 0 <= k < before.len() && before[k] == pod;
                    assert(keys[k] == pod);
                } else {
                    assert(keys[before.len() as int] == pod);
                }
            }
        }
    }
}

proof fn lemma_reported(r: Seq<Reading>, key: (Seq<char>, Seq<char>, Seq<char>, Seq<char>))
    ensures
        reported(r, key) <==> samples(r, key).len() > 0,
    decreases r.len(),
{
    if r.len() > 0 {
        let init = r.drop_last();
        lemma_reported(init, key);
        if reported(r, key) && r.last().key != key {
            let i = choose|i: int| 0 <= i < r.len() && (#[trigger] r[i]).key == key;
            assert(init[i].key == key);
        }
        if reported(init, key) {
            let i = choose|i: int| 0 <= i < init.len() && (#[trigger] init[i]).key == key;
            assert(r[i].key == key);
        }
        if r.last().key == key {
            assert(r[r.len() - 1].key == key);
        }
    }
}

/// What is gathered for a container of a workload is, in some order, what the
/// containers of its name report in the metrics of the pods that the workload owns in
/// its namespace: all of it, each as often as it is reported, and nothing else.
pub proof fn law_usage_gathers_what_the_pods_report(
    entries: Seq<((String, String), Vec<ContainerMetric>)>,
    owners: Map<(Seq<char>, Seq<char>), (Seq<char>, Seq<char>)>,
    key: (Seq<char>, Seq<char>, Seq<char>, Seq<char>),
    pods: Seq<(Seq<char>, Seq<char>)>,
)
    requires
        keys_distinct(entries),
        pods_with_metrics(pods, map_of(entries), owners, (key.0, key.1, key.2)),
    ensures
        match looked_up(usage_by_container(readings(entries, owners)), key) {
            Some(gathered) => gathered.to_multiset() == reports_together(
                map_of(entries),
                pods,
                key.3,
            ),
            None => reports_together(map_of(entries), pods, key.3) == Multiset::<
                (Option<Seq<char>>, Option<Seq<char>>),
            >::empty(),
        },
{
    let metrics = map_of(entries);
    let workload = (key.0, key.1, key.2);
    lemma_enumerated(entries, owners, workload);
    assert forall|i: int| 0 <= i < entries.len() implies metrics[
        #[trigger] entries[i].0.deep_view()
    ] == entries[i].1.deep_view() by {
        lemma_found(entries, i);
    }
    lemma_samples_are_reports(entries, metrics, owners, key);
    let keys = keys_of(entries, owners, workload);
    assert forall|pod: (Seq<char>, Seq<char>)| #[trigger]
        keys.contains(pod) <==> pods.contains(pod) by {}
    law_reports_ignore_the_order_of_pods(metrics, keys, pods, key.3);
    let r = readings(entries, owners);
    lemma_reported(r, key);
    if !reported(r, key) {
        samples(r, key).to_multiset_ensures();
        assert(samples(r, key).to_multiset() =~= Multiset::empty());
    }
}

proof fn lemma_enumerated(
    entries: Seq<((String, String), Vec<ContainerMetric>)>,
    owners: Map<(Seq<char>, Seq<char>), (Seq<char>, Seq<char>)>,
    workload: (Seq<char>, Seq<char>, Seq<char>),
)
    requires
        keys_distinct(entries),
    ensures
        pods_with_metrics(
            keys_of(entries, owners, workload),
            map_of(entries),
            owners,
            workload,
        ),
{
    lemma_keys_of(entries, owners, workload);
    assert forall|pod: (Seq<char>, Seq<char>)|
        #![trigger map_of(entries).dom().contains(pod)]
        map_of(entries).dom().contains(pod) <==> (exists|i: int|
            0 <= i < entries.len() && #[trigger] entries[i].0.deep_view() == pod) by {
        assert(map_of(entries).dom().contains(pod) <==> entry_under(entries, pod) is Some);
    }
}

/// The pods with metrics of a workload can be listed.
pub proof fn law_pods_with_metrics_can_be_listed(
    entries: Seq<((String, String), Vec<ContainerMetric>)>,
    owners: Map<(Seq<char>, Seq<char>), (Seq<char>, Seq<char>)>,
    workload: (Seq<char>, Seq<char>, Seq<char>),
)
    requires
        keys_distinct(entries),
    ensures
        exists|pods: Seq<(Seq<char>, Seq<char>)>| #[trigger]
            pods_with_metrics(pods, map_of(entries), owners, workload),
{
    lemma_enumerated(entries, owners, workload);
}

} // verus!
