//! Pods: which workload owns each, and what they tell of their workloads' health.

use crate::autoscaler::{clamped_to_zero, listed, recorded_if_failed, to_u32};
use crate::degradations::Degradations;
use crate::table::{look_up, looked_up, Labels, Table};
use crate::text::same_text;
use crate::time::{days_between, whole_days_between, Timestamp};
use vstd::prelude::*;

verus! {

/// A reference to the object that owns another.
pub struct OwnerReference {
    pub kind: String,
    pub name: String,
}

/// A ReplicaSet, as far as it leads to a Deployment.
pub struct ReplicaSet {
    pub name: Option<String>,
    pub owners: Vec<OwnerReference>,
}

/// An integer or a text, as Kubernetes has them in one field.
pub enum IntOrString {
    Int(i32),
    Text(String),
}

/// A PodDisruptionBudget. `match_labels` is `None` where it has no selector, or one
/// without match labels.
pub struct PodDisruptionBudget {
    pub match_labels: Option<Labels>,
    pub min_available: Option<IntOrString>,
}

/// The status of a container: its restarts, and why its previous run ended.
pub struct ContainerStatus {
    pub restart_count: i32,
    pub last_termination_reason: Option<String>,
}

/// The status of a pod.
pub struct PodStatus {
    pub start_time: Option<Timestamp>,
    pub container_statuses: Vec<ContainerStatus>,
    pub qos_class: Option<String>,
}

/// A pod.
pub struct Pod {
    pub name: Option<String>,
    pub labels: Option<Labels>,
    pub owners: Vec<OwnerReference>,
    pub status: Option<PodStatus>,
}

/// What the list calls about the pods of a namespace returned, `None` where one failed.
pub struct PodListing {
    pub namespace: String,
    pub replica_sets: Option<Vec<ReplicaSet>>,
    pub budgets: Option<Vec<PodDisruptionBudget>>,
    pub pods: Option<Vec<Pod>>,
}

/// The workload that owns a pod, traced through a ReplicaSet to its Deployment.
pub struct PodOwner {
    pub workload_type: String,
    pub workload_name: String,
}

/// Per-workload signals that say whether shrinking its requests is safe.
pub struct WorkloadHealth {
    pub restart_count: u32,
    pub oom_killed_count: u32,
    pub qos_class: String,
    pub has_pdb: bool,
    pub pdb_min_available: u32,
}

/// [`WorkloadHealth`] as a mathematical value.
pub struct HealthModel {
    pub restart_count: u32,
    pub oom_killed_count: u32,
    pub qos_class: Seq<char>,
    pub has_pdb: bool,
    pub pdb_min_available: u32,
}

/// Owners by the namespace and the name of the pod.
pub type OwnerMap = Table<(String, String), PodOwner>;

/// Days since the most recent pod start, by namespace.
pub type ActivityMap = Table<String, u32>;

/// Health by the namespace, the type and the name of the workload.
pub type HealthMap = Table<(String, String, String), WorkloadHealth>;

impl DeepView for PodOwner {
    type V = (Seq<char>, Seq<char>);

    open spec fn deep_view(&self) -> (Seq<char>, Seq<char>) {
        (self.workload_type@, self.workload_name@)
    }
}

impl DeepView for WorkloadHealth {
    type V = HealthModel;

    open spec fn deep_view(&self) -> HealthModel {
        HealthModel {
            restart_count: self.restart_count,
            oom_killed_count: self.oom_killed_count,
            qos_class: self.qos_class@,
            has_pdb: self.has_pdb,
            pdb_min_available: self.pdb_min_available,
        }
    }
}

/// The health of a workload of which nothing is known.
pub open spec fn no_health() -> HealthModel {
    HealthModel {
        restart_count: 0,
        oom_killed_count: 0,
        qos_class: Seq::empty(),
        has_pdb: false,
        pdb_min_available: 0,
    }
}

impl Default for WorkloadHealth {
    fn default() -> (r: Self)
        ensures
            r.deep_view() == no_health(),
    {
        let r = WorkloadHealth {
            restart_count: 0,
            oom_killed_count: 0,
            qos_class: String::new(),
            has_pdb: false,
            pdb_min_available: 0,
        };
        assert(r.qos_class@ == Seq::<char>::empty());
        r
    }
}

/// The name of the first of `owners` that is of kind `kind`.
pub open spec fn owner_of_kind(owners: Seq<OwnerReference>, kind: Seq<char>) -> Option<Seq<char>>
    decreases owners.len(),
{
    if owners.len() == 0 {
        None
    } else if owners[0].kind@ == kind {
        Some(owners[0].name@)
    } else {
        owner_of_kind(owners.skip(1), kind)
    }
}

/// The Deployment that owns the ReplicaSet called `name`: that of the last
/// ReplicaSet of this name that a Deployment owns.
pub open spec fn deployment_of(sets: Seq<ReplicaSet>, name: Seq<char>) -> Option<Seq<char>>
    decreases sets.len(),
{
    if sets.len() == 0 {
        None
    } else {
        match (sets.last().name, owner_of_kind(sets.last().owners@, "Deployment"@)) {
            (Some(n), Some(deployment)) if n@ == name => Some(deployment),
            _ => deployment_of(sets.drop_last(), name),
        }
    }
}

/// The type and the name of the workload that owns a pod, by its first owner.
pub open spec fn workload_of(pod: Pod, sets: Seq<ReplicaSet>) -> Option<(Seq<char>, Seq<char>)> {
    if pod.owners@.len() == 0 {
        None
    } else {
        let owner = pod.owners@[0];
        if owner.kind@ == "ReplicaSet"@ {
            match deployment_of(sets, owner.name@) {
                Some(deployment) => Some(("Deployment"@, deployment)),
                None => Some(("ReplicaSet"@, owner.name@)),
            }
        } else if owner.kind@ == "StatefulSet"@ {
            Some(("StatefulSet"@, owner.name@))
        } else if owner.kind@ == "DaemonSet"@ {
            Some(("DaemonSet"@, owner.name@))
        } else {
            None
        }
    }
}

/// What a budget keeps: the labels that it selects by and the number of pods that
/// must stay, zero where that is a percentage. `None` if it selects by no label.
pub open spec fn budget_keeps(pdb: PodDisruptionBudget) -> Option<
    (Map<Seq<char>, Seq<char>>, u32),
> {
    match pdb.match_labels {
        None => None,
        Some(labels) => if labels.deep_view() == Map::<Seq<char>, Seq<char>>::empty() {
            None
        } else {
            Some(
                (
                    labels.deep_view(),
                    match pdb.min_available {
                        Some(IntOrString::Int(n)) => clamped_to_zero(n),
                        _ => 0,
                    },
                ),
            )
        },
    }
}

/// What the budgets keep, without those that select by no label.
pub open spec fn budgets_keep(pdbs: Seq<PodDisruptionBudget>) -> Seq<
    (Map<Seq<char>, Seq<char>>, u32),
>
    decreases pdbs.len(),
{
    if pdbs.len() == 0 {
        Seq::empty()
    } else {
        let before = budgets_keep(pdbs.drop_last());
        match budget_keeps(pdbs.last()) {
            Some(kept) => before.push(kept),
            None => before,
        }
    }
}

/// Whether every label of `selector` is among `labels` with the same value.
pub open spec fn selects(
    selector: Map<Seq<char>, Seq<char>>,
    labels: Map<Seq<char>, Seq<char>>,
) -> bool {
    forall|k: Seq<char>| #[trigger]
        selector.dom().contains(k) ==> looked_up(labels, k) == Some(selector[k])
}

/// The larger of a number, if there is one, and another.
pub open spec fn larger(a: Option<u32>, b: u32) -> u32 {
    match a {
        Some(n) if n > b => n,
        _ => b,
    }
}

/// The largest number that a budget selecting `labels` keeps. `None` where none selects them.
pub open spec fn largest_floor(
    kept: Seq<(Map<Seq<char>, Seq<char>>, u32)>,
    labels: Map<Seq<char>, Seq<char>>,
) -> Option<u32>
    decreases kept.len(),
{
    if kept.len() == 0 {
        None
    } else {
        let before = largest_floor(kept.drop_last(), labels);
        if selects(kept.last().0, labels) {
            Some(larger(before, kept.last().1))
        } else {
            before
        }
    }
}

/// What guards a pod with these labels; nothing guards a pod without labels.
pub open spec fn floor_for(
    kept: Seq<(Map<Seq<char>, Seq<char>>, u32)>,
    labels: Option<Labels>,
) -> Option<u32> {
    match labels {
        Some(labels) => largest_floor(kept, labels.deep_view()),
        None => None,
    }
}

/// The restarts of the containers together.
pub open spec fn restarts(statuses: Seq<ContainerStatus>) -> nat
    decreases statuses.len(),
{
    if statuses.len() == 0 {
        0
    } else {
        restarts(statuses.drop_last()) + clamped_to_zero(statuses.last().restart_count) as nat
    }
}

/// Whether the container's previous run ended for want of memory.
pub open spec fn oom_killed(status: ContainerStatus) -> bool {
    match status.last_termination_reason {
        Some(reason) => reason@ == "OOMKilled"@,
        None => false,
    }
}

/// How many of the containers' previous runs ended for want of memory.
pub open spec fn oom_kills(statuses: Seq<ContainerStatus>) -> nat
    decreases statuses.len(),
{
    if statuses.len() == 0 {
        0
    } else {
        oom_kills(statuses.drop_last()) + if oom_killed(statuses.last()) {
            1nat
        } else {
            0
        }
    }
}

/// A pod that a workload owns, as its workload's health reads it.
pub struct Sighting {
    pub namespace: Seq<char>,
    pub pod: Seq<char>,
    pub workload_type: Seq<char>,
    pub workload_name: Seq<char>,
    pub restarts: nat,
    pub oom_kills: nat,
    pub qos_class: Seq<char>,
    pub floor: Option<u32>,
}

/// How a pod is seen. `None` where it has no name, or no workload owns it.
pub open spec fn seen_as(
    namespace: Seq<char>,
    sets: Seq<ReplicaSet>,
    kept: Seq<(Map<Seq<char>, Seq<char>>, u32)>,
    pod: Pod,
) -> Option<Sighting> {
    match (pod.name, workload_of(pod, sets)) {
        (Some(name), Some((workload_type, workload_name))) => Some(
            Sighting {
                namespace,
                pod: name@,
                workload_type,
                workload_name,
                restarts: match pod.status {
                    Some(status) => restarts(status.container_statuses@),
                    None => 0,
                },
                oom_kills: match pod.status {
                    Some(status) => oom_kills(status.container_statuses@),
                    None => 0,
                },
                qos_class: match pod.status {
                    Some(status) => match status.qos_class {
                        Some(class) => class@,
                        None => Seq::empty(),
                    },
                    None => Seq::empty(),
                },
                floor: floor_for(kept, pod.labels),
            },
        ),
        _ => None,
    }
}

/// The pods of a namespace that a workload owns, in order.
pub open spec fn sightings_in(
    namespace: Seq<char>,
    sets: Seq<ReplicaSet>,
    kept: Seq<(Map<Seq<char>, Seq<char>>, u32)>,
    pods: Seq<Pod>,
) -> Seq<Sighting>
    decreases pods.len(),
{
    if pods.len() == 0 {
        Seq::empty()
    } else {
        let before = sightings_in(namespace, sets, kept, pods.drop_last());
        match seen_as(namespace, sets, kept, pods.last()) {
            Some(sighting) => before.push(sighting),
            None => before,
        }
    }
}

/// The pods of a listing that a workload owns, in order.
pub open spec fn sightings_of(listing: PodListing) -> Seq<Sighting> {
    sightings_in(
        listing.namespace@,
        listed(listing.replica_sets),
        budgets_keep(listed(listing.budgets)),
        listed(listing.pods),
    )
}

/// The pods of all listings that a workload owns, in order.
pub open spec fn sightings(listings: Seq<PodListing>) -> Seq<Sighting>
    decreases listings.len(),
{
    if listings.len() == 0 {
        Seq::empty()
    } else {
        sightings(listings.drop_last()) + sightings_of(listings.last())
    }
}

/// The workload that a sighting belongs to.
pub open spec fn workload_key(s: Sighting) -> (Seq<char>, Seq<char>, Seq<char>) {
    (s.namespace, s.workload_type, s.workload_name)
}

/// Whether any of the pods belongs to the workload `key`.
pub open spec fn seen(s: Seq<Sighting>, key: (Seq<char>, Seq<char>, Seq<char>)) -> bool {
    exists|i: int| 0 <= i < s.len() && workload_key(#[trigger] s[i]) == key
}

/// The restarts of the workload's pods together.
pub open spec fn total_restarts(s: Seq<Sighting>, key: (Seq<char>, Seq<char>, Seq<char>)) -> nat
    decreases s.len(),
{
    if s.len() == 0 {
        0
    } else {
        total_restarts(s.drop_last(), key) + if workload_key(s.last()) == key {
            s.last().restarts
        } else {
            0
        }
    }
}

/// The kills for want of memory of the workload's pods together.
pub open spec fn total_oom_kills(s: Seq<Sighting>, key: (Seq<char>, Seq<char>, Seq<char>)) -> nat
    decreases s.len(),
{
    if s.len() == 0 {
        0
    } else {
        total_oom_kills(s.drop_last(), key) + if workload_key(s.last()) == key {
            s.last().oom_kills
        } else {
            0
        }
    }
}

/// The first quality-of-service class that one of the workload's pods reports.
pub open spec fn first_qos_class(
    s: Seq<Sighting>,
    key: (Seq<char>, Seq<char>, Seq<char>),
) -> Seq<char>
    decreases s.len(),
{
    if s.len() == 0 {
        Seq::empty()
    } else {
        let before = first_qos_class(s.drop_last(), key);
        if before.len() == 0 && workload_key(s.last()) == key {
            s.last().qos_class
        } else {
            before
        }
    }
}

/// The largest number of pods that a budget over one of the workload's pods keeps.
pub open spec fn total_floor(
    s: Seq<Sighting>,
    key: (Seq<char>, Seq<char>, Seq<char>),
) -> Option<u32>
    decreases s.len(),
{
    if s.len() == 0 {
        None
    } else {
        let before = total_floor(s.drop_last(), key);
        if workload_key(s.last()) == key {
            match s.last().floor {
                Some(n) => Some(larger(before, n)),
                None => before,
            }
        } else {
            before
        }
    }
}

/// The low 32 bits of a count.
pub open spec fn wrapped(n: nat) -> u32 {
    (n % 0x1_0000_0000) as u32
}

/// The health of the workload `key`.
pub open spec fn health_of(
    s: Seq<Sighting>,
    key: (Seq<char>, Seq<char>, Seq<char>),
) -> HealthModel {
    HealthModel {
        restart_count: wrapped(total_restarts(s, key)),
        oom_killed_count: wrapped(total_oom_kills(s, key)),
        qos_class: first_qos_class(s, key),
        has_pdb: total_floor(s, key) is Some,
        pdb_min_available: match total_floor(s, key) {
            Some(n) => n,
            None => 0,
        },
    }
}

/// The health of every workload that owns one of the pods.
pub open spec fn health_by_workload(s: Seq<Sighting>) -> Map<
    (Seq<char>, Seq<char>, Seq<char>),
    HealthModel,
> {
    Map::new(
        |key: (Seq<char>, Seq<char>, Seq<char>)| seen(s, key),
        |key: (Seq<char>, Seq<char>, Seq<char>)| health_of(s, key),
    )
}

/// The owner of every pod, by namespace and name; that of the last pod of this
/// name where there are several.
pub open spec fn owners_by_pod(s: Seq<Sighting>) -> Map<
    (Seq<char>, Seq<char>),
    (Seq<char>, Seq<char>),
>
    decreases s.len(),
{
    if s.len() == 0 {
        Map::empty()
    } else {
        owners_by_pod(s.drop_last()).insert(
            (s.last().namespace, s.last().pod),
            (s.last().workload_type, s.last().workload_name),
        )
    }
}

/// The age in days of the youngest of the pods that have a name and a start time;
/// the largest `u32` where there is none.
pub open spec fn youngest(pods: Seq<Pod>, now: int) -> u32
    decreases pods.len(),
{
    if pods.len() == 0 {
        u32::MAX
    } else {
        let before = youngest(pods.drop_last(), now);
        match (pods.last().name, pods.last().status) {
            (Some(name), Some(status)) => match status.start_time {
                Some(start) if days_between(now, start@) < before => days_between(now, start@),
                _ => before,
            },
            _ => before,
        }
    }
}

/// The age of the youngest pod by namespace, over the listings whose pods could be
/// read; that of the last listing of a namespace where there are several.
pub open spec fn activity_by_namespace(listings: Seq<PodListing>, now: int) -> Map<Seq<char>, u32>
    decreases listings.len(),
{
    if listings.len() == 0 {
        Map::empty()
    } else {
        let before = activity_by_namespace(listings.drop_last(), now);
        match listings.last().pods {
            Some(pods) => before.insert(listings.last().namespace@, youngest(pods@, now)),
            None => before,
        }
    }
}

/// `recorded`, with the subsystems that could not be read for a listing.
pub open spec fn recorded_for(recorded: Set<Seq<char>>, listing: PodListing) -> Set<Seq<char>> {
    recorded_if_failed(
        recorded_if_failed(
            recorded_if_failed(recorded, listing.replica_sets, "replicasets"@),
            listing.budgets,
            "poddisruptionbudgets"@,
        ),
        listing.pods,
        "pods"@,
    )
}

/// `recorded`, with the subsystems that could not be read for some listing.
pub open spec fn recorded_for_pods(
    recorded: Set<Seq<char>>,
    listings: Seq<PodListing>,
) -> Set<Seq<char>>
    decreases listings.len(),
{
    if listings.len() == 0 {
        recorded
    } else {
        recorded_for(recorded_for_pods(recorded, listings.drop_last()), listings.last())
    }
}

fn owner_of_kind_in(owners: &Vec<OwnerReference>, kind: &str) -> (r: Option<String>)
    ensures
        r.deep_view() == owner_of_kind(owners@, kind@),
{
    let mut i: usize = 0;
    assert(owners@.skip(0) == owners@);
    while i < owners.len()
        invariant
            i <= owners.len(),
            owner_of_kind(owners@, kind@) == owner_of_kind(owners@.skip(i as int), kind@),
        decreases owners.len() - i,
    {
        assert(owners@.skip(i as int).skip(1) == owners@.skip(i + 1));
        if same_text(owners[i].kind.as_str(), kind) {
            return Some(owners[i].name.clone());
        }
        i += 1;
    }
    None
}

/// The Deployments of ReplicaSets, by the name of the ReplicaSet.
fn deployments_by_set(sets: &Vec<ReplicaSet>) -> (r: Table<String, String>)
    ensures
        forall|name: Seq<char>| #[trigger]
            looked_up(r.deep_view(), name) == deployment_of(sets@, name),
{
    let mut map: Table<String, String> = Table::new();
    let mut i: usize = 0;
    while i < sets.len()
        invariant
            i <= sets.len(),
            forall|name: Seq<char>| #[trigger]
                looked_up(map.deep_view(), name) == deployment_of(sets@.take(i as int), name),
        decreases sets.len() - i,
    {
        let ghost before = map.deep_view();
        assert(sets@.take(i + 1).drop_last() == sets@.take(i as int));
        match &sets[i].name {
            Some(name) => {
                match owner_of_kind_in(&sets[i].owners, "Deployment") {
                    Some(deployment) => {
                        map.insert(name.clone(), deployment);
                    },
                    None => {},
                }
            },
            None => {},
        }
        assert forall|name: Seq<char>| #[trigger]
            looked_up(map.deep_view(), name) == deployment_of(sets@.take(i + 1), name) by {
            assert(looked_up(before, name) == deployment_of(sets@.take(i as int), name));
        }
        i += 1;
    }
    assert(sets@.take(sets@.len() as int) == sets@);
    map
}

/// The workload that owns a pod.
fn pod_owner(pod: &Pod, deployments: &Table<String, String>, Ghost(sets): Ghost<Seq<ReplicaSet>>) -> (r:
    Option<PodOwner>)
    requires
        forall|name: Seq<char>| #[trigger]
            looked_up(deployments.deep_view(), name) == deployment_of(sets, name),
    ensures
        r.deep_view() == workload_of(*pod, sets),
{
    if pod.owners.len() == 0 {
        return None;
    }
    let owner: &OwnerReference = &pod.owners[0];
    if same_text(owner.kind.as_str(), "ReplicaSet") {
        match look_up(deployments, owner.name.as_str()) {
            Some(deployment) => Some(
                PodOwner {
                    workload_type: "Deployment".to_owned(),
                    workload_name: deployment.clone(),
                },
            ),
            None => Some(
                PodOwner {
                    workload_type: "ReplicaSet".to_owned(),
                    workload_name: owner.name.clone(),
                },
            ),
        }
    } else if same_text(owner.kind.as_str(), "StatefulSet") {
        Some(
            PodOwner {
                workload_type: "StatefulSet".to_owned(),
                workload_name: owner.name.clone(),
            },
        )
    } else if same_text(owner.kind.as_str(), "DaemonSet") {
        Some(
            PodOwner {
                workload_type: "DaemonSet".to_owned(),
                workload_name: owner.name.clone(),
            },
        )
    } else {
        None
    }
}

/// The pairs of match labels and minimal numbers of the budgets of a namespace.
///
/// Only match labels are honoured: a budget that selects by expressions alone
/// selects nothing here. A percentage counts as zero; that the workload is guarded
/// at all is what matters.
pub fn budget_floors(pdbs: &Vec<PodDisruptionBudget>) -> (r: Vec<(Labels, u32)>)
    ensures
        r.deep_view() == budgets_keep(pdbs@),
{
    let mut kept: Vec<(Labels, u32)> = Vec::new();
    let mut i: usize = 0;
    assert(kept.deep_view() == Seq::<(Map<Seq<char>, Seq<char>>, u32)>::empty());
    while i < pdbs.len()
        invariant
            i <= pdbs.len(),
            kept.deep_view() == budgets_keep(pdbs@.take(i as int)),
        decreases pdbs.len() - i,
    {
        assert(pdbs@.take(i + 1).drop_last() == pdbs@.take(i as int));
        let ghost before = kept.deep_view();
        match &pdbs[i].match_labels {
            Some(labels) => {
                if !labels.is_empty() {
                    let min: u32 = match &pdbs[i].min_available {
                        Some(IntOrString::Int(n)) => to_u32(*n),
                        _ => 0,
                    };
                    let copy = copy_labels(labels);
                    kept.push((copy, min));
                    assert(kept.deep_view() == before.push((labels.deep_view(), min)));
                }
            },
            None => {},
        }
        i += 1;
    }
    assert(pdbs@.take(pdbs@.len() as int) == pdbs@);
    kept
}

/// A copy of `labels`.
fn copy_labels(labels: &Labels) -> (r: Labels)
    ensures
        r.deep_view() == labels.deep_view(),
{
    labels.keys_are_distinct();
    let ghost entries = labels.list();
    let mut out = Labels::new();
    let mut i: usize = 0;
    let n: usize = labels.len();
    while i < n
        invariant
            i <= n == entries.len(),
            entries == labels.list(),
            crate::table::keys_distinct(entries),
            out.deep_view() == crate::table::map_of(entries.take(i as int)),
        decreases n - i,
    {
        out.insert(labels.key_at(i).clone(), labels.value_at(i).clone());
        proof {
            crate::table::lemma_next(entries, i as int);
        }
        i += 1;
    }
    assert(entries.take(n as int) == entries);
    out
}

/// Whether every label of `selector` is among `labels` with the same value.
fn selector_matches(selector: &Labels, labels: &Labels) -> (r: bool)
    ensures
        r == selects(selector.deep_view(), labels.deep_view()),
{
    selector.keys_are_distinct();
    let ghost entries = selector.list();
    let n: usize = selector.len();
    let mut i: usize = 0;
    while i < n
        invariant
            i <= n == entries.len(),
            entries == selector.list(),
            crate::table::keys_distinct(entries),
            forall|k: int|
                0 <= k < i ==> looked_up(labels.deep_view(), #[trigger] entries[k].0@) == Some(
                    entries[k].1@,
                ),
        decreases n - i,
    {
        let same: bool = match labels.get(selector.key_at(i)) {
            Some(v) => *v == *selector.value_at(i),
            None => false,
        };
        if !same {
            proof {
                crate::table::lemma_found(entries, i as int);
                assert(selector.deep_view().dom().contains(entries[i as int].0@));
            }
            return false;
        }
        i += 1;
    }
    proof {
        assert forall|k: Seq<char>| #[trigger]
            selector.deep_view().dom().contains(k) implies looked_up(labels.deep_view(), k) == Some(
            selector.deep_view()[k],
        ) by {
            let j = crate::table::entry_under(entries, k)->0;
            assert(entries[j].0@ == k);
            crate::table::lemma_found(entries, j);
        }
    }
    true
}

/// The largest minimum among the budgets that select these pod labels, or `None`
/// when none selects them. A budget selects a pod when every one of its match
/// labels is on the pod with the same value.
pub fn pdb_floor(pdbs: &Vec<(Labels, u32)>, pod_labels: Option<&Labels>) -> (r: Option<u32>)
    ensures
        r == match pod_labels {
            Some(labels) => largest_floor(pdbs.deep_view(), labels.deep_view()),
            None => None,
        },
{
    let labels: &Labels = match pod_labels {
        Some(labels) => labels,
        None => {
            return None;
        },
    };
    let ghost kept = pdbs.deep_view();
    let mut floor: Option<u32> = None;
    let mut i: usize = 0;
    while i < pdbs.len()
        invariant
            i <= pdbs.len(),
            kept == pdbs.deep_view(),
            floor == largest_floor(kept.take(i as int), labels.deep_view()),
        decreases pdbs.len() - i,
    {
        assert(kept.take(i + 1).drop_last() == kept.take(i as int));
        assert(kept[i as int] == (pdbs@[i as int].0.deep_view(), pdbs@[i as int].1));
        if selector_matches(&pdbs[i].0, labels) {
            floor = match floor {
                Some(n) => if n > pdbs[i].1 {
                    Some(n)
                } else {
                    Some(pdbs[i].1)
                },
                None => Some(pdbs[i].1),
            };
        }
        i += 1;
    }
    assert(kept.take(kept.len() as int) == kept);
    floor
}

/// The low 32 bits of the restarts and of the kills for want of memory.
fn container_totals(statuses: &Vec<ContainerStatus>) -> (r: (u32, u32))
    ensures
        r.0 == wrapped(restarts(statuses@)),
        r.1 == wrapped(oom_kills(statuses@)),
{
    let mut total: u32 = 0;
    let mut kills: u32 = 0;
    let mut i: usize = 0;
    while i < statuses.len()
        invariant
            i <= statuses.len(),
            total == wrapped(restarts(statuses@.take(i as int))),
            kills == wrapped(oom_kills(statuses@.take(i as int))),
        decreases statuses.len() - i,
    {
        let ghost before = statuses@.take(i as int);
        assert(statuses@.take(i + 1).drop_last() == before);
        let n: u32 = to_u32(statuses[i].restart_count);
        proof {
            lemma_wrapped_add(restarts(before), n as nat);
            lemma_wrapped_add(oom_kills(before), 1);
        }
        total = total.wrapping_add(n);
        let oom: bool = match &statuses[i].last_termination_reason {
            Some(reason) => same_text(reason.as_str(), "OOMKilled"),
            None => false,
        };
        if oom {
            kills = kills.wrapping_add(1);
        }
        i += 1;
    }
    assert(statuses@.take(statuses@.len() as int) == statuses@);
    (total, kills)
}

pub(crate) proof fn lemma_wrapped_add(a: nat, b: nat)
    ensures
        wrapped(a + b) == wrapped(a).wrapping_add(wrapped(b)),
        b < 0x1_0000_0000 ==> wrapped(b) == b,
{
    vstd::arithmetic::div_mod::lemma_add_mod_noop(a as int, b as int, 0x1_0000_0000);
}

/// Adds a pod to the health of its workload.
fn add_pod(
    health: &mut HealthMap,
    key: (String, String, String),
    pod: &Pod,
    pdbs: &Vec<(Labels, u32)>,
    Ghost(s): Ghost<Seq<Sighting>>,
    Ghost(sighting): Ghost<Sighting>,
)
    requires
        old(health).deep_view() == health_by_workload(s),
        key.deep_view() == workload_key(sighting),
        exists|sets: Seq<ReplicaSet>|
            #![trigger seen_as(sighting.namespace, sets, pdbs.deep_view(), *pod)]
            seen_as(sighting.namespace, sets, pdbs.deep_view(), *pod) == Some(sighting),
    ensures
        final(health).deep_view() == health_by_workload(s.push(sighting)),
{
    let ghost k = workload_key(sighting);
    let mut entry: WorkloadHealth = match health.take(&key) {
        Some(entry) => entry,
        None => WorkloadHealth::default(),
    };
    proof {
        if !seen(s, k) {
            lemma_unseen(s, k);
        }
        assert(entry.deep_view() == health_of(s, k));
        lemma_wrapped_add(total_restarts(s, k), sighting.restarts);
        lemma_wrapped_add(total_oom_kills(s, k), sighting.oom_kills);
        lemma_wrapped_add(total_restarts(s, k), 0);
        lemma_wrapped_add(total_oom_kills(s, k), 0);
    }
    match &pod.status {
        Some(status) => {
            let (total, kills) = container_totals(&status.container_statuses);
            entry.restart_count = entry.restart_count.wrapping_add(total);
            entry.oom_killed_count = entry.oom_killed_count.wrapping_add(kills);
            if entry.qos_class.as_str().is_empty() {
                match &status.qos_class {
                    Some(class) => {
                        entry.qos_class = class.clone();
                    },
                    None => {},
                }
            }
        },
        None => {},
    }
    let floor: Option<u32> = match &pod.labels {
        Some(labels) => pdb_floor(pdbs, Some(labels)),
        None => None,
    };
    match floor {
        Some(min) => {
            entry.has_pdb = true;
            if min > entry.pdb_min_available {
                entry.pdb_min_available = min;
            }
        },
        None => {},
    }
    health.insert(key, entry);
    proof {
        let after = s.push(sighting);
        assert(after.drop_last() == s);
        assert(entry.qos_class@ =~= first_qos_class(after, k));
        assert(entry.deep_view() == health_of(after, k));
        lemma_seen_push(s, sighting);
        assert forall|other: (Seq<char>, Seq<char>, Seq<char>)| other != k implies health_of(
            after,
            other,
        ) == health_of(s, other) by {}
        assert(health.deep_view() =~= health_by_workload(after));
    }
}

proof fn lemma_seen_push(s: Seq<Sighting>, sighting: Sighting)
    ensures
        forall|key: (Seq<char>, Seq<char>, Seq<char>)|
            seen(s.push(sighting), key) == (seen(s, key) || key == workload_key(sighting)),
{
    let after = s.push(sighting);
    assert forall|key: (Seq<char>, Seq<char>, Seq<char>)|
        seen(s.push(sighting), key) == (seen(s, key) || key == workload_key(sighting)) by {
        if seen(s, key) {
            let i = choose|i: int| 0 <= i < s.len() && workload_key(#[trigger] s[i]) == key;
            assert(workload_key(after[i]) == key);
        }
        if key == workload_key(sighting) {
            assert(workload_key(after[s.len() as int]) == key);
        }
        if seen(after, key) {
            let i = choose|i: int| 0 <= i < after.len() && workload_key(#[trigger] after[i]) == key;
            if i < s.len() {
                assert(workload_key(s[i]) == key);
            }
        }
    }
}

proof fn lemma_unseen(s: Seq<Sighting>, key: (Seq<char>, Seq<char>, Seq<char>))
    requires
        !seen(s, key),
    ensures
        total_restarts(s, key) == 0,
        total_oom_kills(s, key) == 0,
        first_qos_class(s, key) == Seq::<char>::empty(),
        total_floor(s, key) is None,
        health_of(s, key) == no_health(),
    decreases s.len(),
{
    if s.len() > 0 {
        let init = s.drop_last();
        assert(workload_key(s[s.len() - 1]) != key);
        assert(!seen(init, key)) by {
            if seen(init, key) {
                let i = choose|i: int| 0 <= i < init.len() && workload_key(#[trigger] init[i]) == key;
                assert(workload_key(s[i]) == key);
            }
        }
        lemma_unseen(init, key);
    }
}

/// Reads the pods of a namespace into the maps. Returns the age of the youngest.
fn read_pods(
    namespace: &String,
    pods: &Vec<Pod>,
    deployments: &Table<String, String>,
    pdbs: &Vec<(Labels, u32)>,
    now: &Timestamp,
    owners: &mut OwnerMap,
    health: &mut HealthMap,
    Ghost(s): Ghost<Seq<Sighting>>,
    Ghost(sets): Ghost<Seq<ReplicaSet>>,
) -> (r: u32)
    requires
        old(owners).deep_view() == owners_by_pod(s),
        old(health).deep_view() == health_by_workload(s),
        forall|name: Seq<char>| #[trigger]
            looked_up(deployments.deep_view(), name) == deployment_of(sets, name),
    ensures
        final(owners).deep_view() == owners_by_pod(
            s + sightings_in(namespace@, sets, pdbs.deep_view(), pods@),
        ),
        final(health).deep_view() == health_by_workload(
            s + sightings_in(namespace@, sets, pdbs.deep_view(), pods@),
        ),
        r == youngest(pods@, now@),
{
    let ghost kept = pdbs.deep_view();
    let mut youngest_days: u32 = u32::MAX;
    let mut i: usize = 0;
    assert(s + Seq::<Sighting>::empty() == s);
    while i < pods.len()
        invariant
            i <= pods.len(),
            kept == pdbs.deep_view(),
            owners.deep_view() == owners_by_pod(
                s + sightings_in(namespace@, sets, kept, pods@.take(i as int)),
            ),
            health.deep_view() == health_by_workload(
                s + sightings_in(namespace@, sets, kept, pods@.take(i as int)),
            ),
            youngest_days == youngest(pods@.take(i as int), now@),
            forall|name: Seq<char>| #[trigger]
                looked_up(deployments.deep_view(), name) == deployment_of(sets, name),
        decreases pods.len() - i,
    {
        let pod: &Pod = &pods[i];
        let ghost before = sightings_in(namespace@, sets, kept, pods@.take(i as int));
        assert(pods@.take(i + 1).drop_last() == pods@.take(i as int));
        match &pod.name {
            Some(pod_name) => {
                match &pod.status {
                    Some(status) => {
                        match &status.start_time {
                            Some(start) => {
                                let days: u32 = whole_days_between(now, start);
                                if days < youngest_days {
                                    youngest_days = days;
                                }
                            },
                            None => {},
                        }
                    },
                    None => {},
                }
                match pod_owner(pod, deployments, Ghost(sets)) {
                    Some(owner) => {
                        let ghost sighting = seen_as(namespace@, sets, kept, *pod)->0;
                        assert(seen_as(namespace@, sets, kept, *pod) == Some(sighting));
                        assert((s + before).push(sighting) == s + before.push(sighting));
                        let key = (
                            namespace.clone(),
                            owner.workload_type.clone(),
                            owner.workload_name.clone(),
                        );
                        add_pod(health, key, pod, pdbs, Ghost(s + before), Ghost(sighting));
                        assert((s + before).push(sighting).drop_last() == s + before);
                        owners.insert((namespace.clone(), pod_name.clone()), owner);
                    },
                    None => {},
                }
            },
            None => {},
        }
        i += 1;
    }
    assert(pods@.take(pods@.len() as int) == pods@);
    youngest_days
}

/// Builds the owners of pods by namespace and pod name, the age of the most recent
/// pod start by namespace, and the health of workloads.
///
/// ReplicaSets are resolved up to their Deployment. A list call that failed is
/// recorded, and its data taken as absent.
pub fn build_pod_owner_map(
    listings: &Vec<PodListing>,
    now: &Timestamp,
    degraded: &mut Degradations,
) -> (r: (OwnerMap, ActivityMap, HealthMap))
    ensures
        r.0.deep_view() == owners_by_pod(sightings(listings@)),
        r.1.deep_view() == activity_by_namespace(listings@, now@),
        r.2.deep_view() == health_by_workload(sightings(listings@)),
        final(degraded)@ == recorded_for_pods(old(degraded)@, listings@),
{
    let mut owners: OwnerMap = Table::new();
    let mut activity: ActivityMap = Table::new();
    let mut health: HealthMap = Table::new();
    let mut i: usize = 0;
    let ghost start = degraded@;
    assert(health.deep_view() =~= health_by_workload(Seq::empty()));
    while i < listings.len()
        invariant
            i <= listings.len(),
            owners.deep_view() == owners_by_pod(sightings(listings@.take(i as int))),
            activity.deep_view() == activity_by_namespace(listings@.take(i as int), now@),
            health.deep_view() == health_by_workload(sightings(listings@.take(i as int))),
            degraded@ == recorded_for_pods(start, listings@.take(i as int)),
        decreases listings.len() - i,
    {
        let listing: &PodListing = &listings[i];
        let ghost before = sightings(listings@.take(i as int));
        assert(listings@.take(i + 1).drop_last() == listings@.take(i as int));
        let none_sets: Vec<ReplicaSet> = Vec::new();
        let sets: &Vec<ReplicaSet> = match &listing.replica_sets {
            Some(sets) => sets,
            None => {
                degraded.record("replicasets");
                &none_sets
            },
        };
        assert(sets@ == listed(listing.replica_sets));
        let none_budgets: Vec<PodDisruptionBudget> = Vec::new();
        let budgets: &Vec<PodDisruptionBudget> = match &listing.budgets {
            Some(budgets) => budgets,
            None => {
                degraded.record("poddisruptionbudgets");
                &none_budgets
            },
        };
        assert(budgets@ == listed(listing.budgets));
        match &listing.pods {
            Some(pods) => {
                let deployments = deployments_by_set(sets);
                let pdbs = budget_floors(budgets);
                let days: u32 = read_pods(
                    &listing.namespace,
                    pods,
                    &deployments,
                    &pdbs,
                    now,
                    &mut owners,
                    &mut health,
                    Ghost(before),
                    Ghost(sets@),
                );
                activity.insert(listing.namespace.clone(), days);
            },
            None => {
                degraded.record("pods");
                assert(before + sightings_of(*listing) == before);
            },
        }
        i += 1;
    }
    assert(listings@.take(listings@.len() as int) == listings@);
    (owners, activity, health)
}

/// The floor over a pod is that of the strictest budget that selects it: it is kept
/// by one of them, none keeps more, and there is no floor only where none selects it.
pub proof fn law_floor_is_the_strictest(
    kept: Seq<(Map<Seq<char>, Seq<char>>, u32)>,
    labels: Map<Seq<char>, Seq<char>>,
)
    ensures
        match largest_floor(kept, labels) {
            Some(n) => {
                &&& exists|i: int|
                    0 <= i < kept.len() && selects((#[trigger] kept[i]).0, labels) && kept[i].1 == n
                &&& forall|i: int|
                    0 <= i < kept.len() && selects((#[trigger] kept[i]).0, labels) ==> kept[i].1
                        <= n
            },
            None => forall|i: int|
                0 <= i < kept.len() ==> !selects((#[trigger] kept[i]).0, labels),
        },
    decreases kept.len(),
{
    if kept.len() > 0 {
        let init = kept.drop_last();
        law_floor_is_the_strictest(init, labels);
        assert forall|i: int| 0 <= i < init.len() implies #[trigger] kept[i] == init[i] by {}
        let last = kept.len() - 1;
        match largest_floor(kept, labels) {
            Some(n) => {
                if selects(kept[last].0, labels) && kept[last].1 == n {
                    assert(selects(kept[last].0, labels));
                } else {
                    let i = choose|i: int|
                        0 <= i < init.len() && selects((#[trigger] init[i]).0, labels) && init[i].1
                            == n;
                    assert(selects(kept[i].0, labels));
                }
            },
            None => {},
        }
    }
}

} // verus!
