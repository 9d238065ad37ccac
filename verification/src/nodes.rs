//! Nodes, and the node pools that they make up.

use crate::node_laws::law_spot_needs_a_label_that_says_so;
use crate::quantity::{parse_cpu_to_millicores, parse_memory_to_mib, whole_mib, whole_millicores};
use crate::table::{look_up, looked_up, map_of, Labels, Table};
use crate::text::{
    find, find_text, lemma_precedes_irreflexive, lemma_precedes_total, lemma_precedes_transitive,
    precedes, same_text, text_before,
};
use vstd::prelude::*;

verus! {

/// What a node's status reports of its resources, as quantities by resource name.
pub struct NodeStatus {
    pub allocatable: Option<Labels>,
    pub capacity: Option<Labels>,
}

/// A node, as far as pricing reads it.
pub struct Node {
    pub labels: Option<Labels>,
    pub provider_id: Option<String>,
    pub status: Option<NodeStatus>,
}

/// Per-node pricing metadata from labels and the provider id.
pub struct NodeMeta {
    pub instance_type: String,
    pub region: String,
    pub capacity_type: String,
    pub provider: String,
}

/// Nodes of one instance type, region and capacity type. The resource figures
/// describe one node.
#[derive(Debug)]
pub struct NodePool {
    pub instance_type: String,
    pub region: String,
    pub capacity_type: String,
    pub node_count: u32,
    pub cpu_allocatable_m: u32,
    pub memory_allocatable_mi: u32,
    pub cpu_capacity_m: u32,
    pub memory_capacity_mi: u32,
}

/// The cloud provider that a provider id names: its scheme, with `gce` called
/// `gcp`. Empty where the id has no scheme.
pub open spec fn provider_of(id: Seq<char>) -> Seq<char> {
    match find(id, "://"@) {
        Some(i) => if id.take(i) == "gce"@ {
            "gcp"@
        } else {
            id.take(i)
        },
        None => Seq::empty(),
    }
}

/// Whether any of the known signals marks the node as preemptible.
pub open spec fn is_spot(labels: Map<Seq<char>, Seq<char>>) -> bool {
    ||| looked_up(labels, "karpenter.sh/capacity-type"@) == Some("spot"@)
    ||| looked_up(labels, "eks.amazonaws.com/capacityType"@) == Some("SPOT"@)
    ||| looked_up(labels, "cloud.google.com/gke-spot"@) == Some("true"@)
    ||| looked_up(labels, "kubernetes.azure.com/scalesetpriority"@) == Some("spot"@)
}

/// The capacity type that labels tell.
pub open spec fn capacity_type(labels: Map<Seq<char>, Seq<char>>) -> Seq<char> {
    if is_spot(labels) {
        "spot"@
    } else {
        "on-demand"@
    }
}

/// The labels of a node, none where it carries none.
pub open spec fn labels_of(node: Node) -> Map<Seq<char>, Seq<char>> {
    match node.labels {
        Some(labels) => labels.deep_view(),
        None => Map::empty(),
    }
}

/// What is under `key`, else under `legacy`, else nothing.
pub open spec fn first_label(
    labels: Map<Seq<char>, Seq<char>>,
    key: Seq<char>,
    legacy: Seq<char>,
) -> Seq<char> {
    match looked_up(labels, key) {
        Some(v) => v,
        None => match looked_up(labels, legacy) {
            Some(v) => v,
            None => Seq::empty(),
        },
    }
}

/// The instance type of a node.
pub open spec fn instance_type_of(node: Node) -> Seq<char> {
    first_label(
        labels_of(node),
        "node.kubernetes.io/instance-type"@,
        "beta.kubernetes.io/instance-type"@,
    )
}

/// The region of a node.
pub open spec fn region_of(node: Node) -> Seq<char> {
    first_label(
        labels_of(node),
        "topology.kubernetes.io/region"@,
        "failure-domain.beta.kubernetes.io/region"@,
    )
}

/// The cloud provider that a node's provider id names.
pub open spec fn node_provider(node: Node) -> Seq<char> {
    match node.provider_id {
        Some(id) => provider_of(id@),
        None => Seq::empty(),
    }
}

/// What decides which pool a node belongs to: instance type, region, capacity type.
pub open spec fn pool_key(node: Node) -> (Seq<char>, Seq<char>, Seq<char>) {
    (instance_type_of(node), region_of(node), capacity_type(labels_of(node)))
}

/// The CPU quantity in `resources`, in whole millicores; zero where there is none.
pub open spec fn cpu_in(resources: Option<Labels>) -> u32 {
    match resources {
        Some(r) => match looked_up(r.deep_view(), "cpu"@) {
            Some(q) => whole_millicores(q),
            None => 0,
        },
        None => 0,
    }
}

/// The memory quantity in `resources`, in whole MiB; zero where there is none.
pub open spec fn memory_in(resources: Option<Labels>) -> u32 {
    match resources {
        Some(r) => match looked_up(r.deep_view(), "memory"@) {
            Some(q) => whole_mib(q),
            None => 0,
        },
        None => 0,
    }
}

/// A node's allocatable CPU and memory and its CPU and memory capacity.
pub open spec fn resources_of(node: Node) -> Seq<u32> {
    match node.status {
        Some(status) => seq![
            cpu_in(status.allocatable),
            memory_in(status.allocatable),
            cpu_in(status.capacity),
            memory_in(status.capacity),
        ],
        None => seq![0, 0, 0, 0],
    }
}

/// How many of the nodes belong to the pool `key`.
pub open spec fn pool_size(nodes: Seq<Node>, key: (Seq<char>, Seq<char>, Seq<char>)) -> nat
    decreases nodes.len(),
{
    if nodes.len() == 0 {
        0
    } else {
        pool_size(nodes.drop_last(), key) + if pool_key(nodes.last()) == key {
            1nat
        } else {
            0
        }
    }
}

/// The sum of one resource figure over the nodes of the pool `key`.
pub open spec fn pool_total(
    nodes: Seq<Node>,
    key: (Seq<char>, Seq<char>, Seq<char>),
    figure: int,
) -> nat
    decreases nodes.len(),
{
    if nodes.len() == 0 {
        0
    } else {
        pool_total(nodes.drop_last(), key, figure) + if pool_key(nodes.last()) == key {
            resources_of(nodes.last())[figure] as nat
        } else {
            0
        }
    }
}

/// How many of the nodes are in `region`.
pub open spec fn region_size(nodes: Seq<Node>, region: Seq<char>) -> nat
    decreases nodes.len(),
{
    if nodes.len() == 0 {
        0
    } else {
        region_size(nodes.drop_last(), region) + if region_of(nodes.last()) == region {
            1nat
        } else {
            0
        }
    }
}

/// The first cloud provider that a node names; empty where none does.
pub open spec fn first_provider(nodes: Seq<Node>) -> Seq<char>
    decreases nodes.len(),
{
    if nodes.len() == 0 {
        Seq::empty()
    } else if first_provider(nodes.drop_last()).len() > 0 {
        first_provider(nodes.drop_last())
    } else {
        node_provider(nodes.last())
    }
}

/// The key of a pool.
pub open spec fn key_of(pool: NodePool) -> (Seq<char>, Seq<char>, Seq<char>) {
    (pool.instance_type@, pool.region@, pool.capacity_type@)
}

/// The order of pools: by instance type, then region, then capacity type.
pub open spec fn key_before(
    a: (Seq<char>, Seq<char>, Seq<char>),
    b: (Seq<char>, Seq<char>, Seq<char>),
) -> bool {
    if a.0 != b.0 {
        precedes(a.0, b.0)
    } else if a.1 != b.1 {
        precedes(a.1, b.1)
    } else {
        precedes(a.2, b.2)
    }
}

/// The share of one node in a total, cut to a whole number, at most the largest `u32`.
pub open spec fn per_node(total: nat, count: nat) -> u32 {
    if total / count <= u32::MAX {
        (total / count) as u32
    } else {
        u32::MAX
    }
}

/// Whether `pool` sums up the nodes of its key.
pub open spec fn sums_up(pool: NodePool, nodes: Seq<Node>) -> bool {
    let key = key_of(pool);
    let size = pool_size(nodes, key);
    &&& size > 0
    &&& pool.node_count == size
    &&& pool.cpu_allocatable_m == per_node(pool_total(nodes, key, 0), size)
    &&& pool.memory_allocatable_mi == per_node(pool_total(nodes, key, 1), size)
    &&& pool.cpu_capacity_m == per_node(pool_total(nodes, key, 2), size)
    &&& pool.memory_capacity_mi == per_node(pool_total(nodes, key, 3), size)
}

/// Whether `pools` are the pools of the nodes: one per key, in the order of keys.
pub open spec fn pools_of(pools: Seq<NodePool>, nodes: Seq<Node>) -> bool {
    &&& forall|i: int| 0 <= i < pools.len() ==> sums_up(#[trigger] pools[i], nodes)
    &&& forall|i: int, j: int|
        0 <= i < j < pools.len() ==> key_before(key_of(#[trigger] pools[i]), key_of(#[trigger] pools[j]))
    &&& forall|j: int| 0 <= j < nodes.len() ==> has_pool(pools, pool_key(#[trigger] nodes[j]))
}

/// Whether one of `pools` has the key `key`.
pub open spec fn has_pool(pools: Seq<NodePool>, key: (Seq<char>, Seq<char>, Seq<char>)) -> bool {
    exists|i: int| 0 <= i < pools.len() && key_of(#[trigger] pools[i]) == key
}

/// Whether `region` is the most common region that is not empty, the first in the
/// order of strings among equally common ones; empty where no node reports a region.
pub open spec fn primary_region(region: Seq<char>, nodes: Seq<Node>) -> bool {
    if forall|j: int| 0 <= j < nodes.len() ==> region_of(#[trigger] nodes[j]).len() == 0 {
        region.len() == 0
    } else {
        &&& region.len() > 0
        &&& region_size(nodes, region) > 0
        &&& forall|other: Seq<char>|
            other.len() > 0 && other != region ==> region_size(nodes, other) < region_size(
                nodes,
                region,
            ) || (#[trigger] region_size(nodes, other) == region_size(nodes, region) && precedes(
                region,
                other,
            ))
    }
}

/// Maps a node's provider id to a cloud-provider name.
pub fn parse_provider_id(provider_id: &str) -> (r: String)
    ensures
        r@ == provider_of(provider_id@),
{
    match find_text(provider_id, "://") {
        Some(i) => {
            let scheme: &str = provider_id.substring_char(0, i);
            assert(provider_id@.subrange(0, i as int) == provider_id@.take(i as int));
            if same_text(scheme, "gce") {
                "gcp".to_owned()
            } else {
                scheme.to_owned()
            }
        },
        None => String::new(),
    }
}

fn label_is(labels: &Labels, key: &str, value: &str) -> (r: bool)
    ensures
        r == (looked_up(labels.deep_view(), key@) == Some(value@)),
{
    match look_up(labels, key) {
        Some(v) => same_text(v.as_str(), value),
        None => false,
    }
}

/// "spot" if any of the Karpenter, EKS, GKE or AKS signals is present, else "on-demand".
pub fn capacity_type_from_labels(labels: &Labels) -> (r: &'static str)
    ensures
        r@ == capacity_type(labels.deep_view()),
        r@ == "spot"@ <==> labels.deep_view().contains_pair("karpenter.sh/capacity-type"@, "spot"@)
            || labels.deep_view().contains_pair("eks.amazonaws.com/capacityType"@, "SPOT"@)
            || labels.deep_view().contains_pair("cloud.google.com/gke-spot"@, "true"@)
            || labels.deep_view().contains_pair("kubernetes.azure.com/scalesetpriority"@, "spot"@),
        r@ == "spot"@ || r@ == "on-demand"@,
{
    proof {
        law_spot_needs_a_label_that_says_so(labels.deep_view());
    }
    if label_is(labels, "karpenter.sh/capacity-type", "spot") || label_is(
        labels,
        "eks.amazonaws.com/capacityType",
        "SPOT",
    ) || label_is(labels, "cloud.google.com/gke-spot", "true") || label_is(
        labels,
        "kubernetes.azure.com/scalesetpriority",
        "spot",
    ) {
        "spot"
    } else {
        "on-demand"
    }
}

fn first_label_of(labels: &Labels, key: &str, legacy: &str) -> (r: String)
    ensures
        r@ == first_label(labels.deep_view(), key@, legacy@),
{
    match look_up(labels, key) {
        Some(v) => v.clone(),
        None => match look_up(labels, legacy) {
            Some(v) => v.clone(),
            None => String::new(),
        },
    }
}

/// The pricing metadata of a node.
pub fn node_meta(node: &Node) -> (r: NodeMeta)
    ensures
        r.instance_type@ == instance_type_of(*node),
        r.region@ == region_of(*node),
        r.capacity_type@ == capacity_type(labels_of(*node)),
        r.provider@ == node_provider(*node),
{
    let provider = match &node.provider_id {
        Some(id) => parse_provider_id(id.as_str()),
        None => String::new(),
    };
    let none = Labels::new();
    let labels: &Labels = match &node.labels {
        Some(labels) => labels,
        None => &none,
    };
    NodeMeta {
        instance_type: first_label_of(
            labels,
            "node.kubernetes.io/instance-type",
            "beta.kubernetes.io/instance-type",
        ),
        region: first_label_of(
            labels,
            "topology.kubernetes.io/region",
            "failure-domain.beta.kubernetes.io/region",
        ),
        capacity_type: capacity_type_from_labels(labels).to_owned(),
        provider,
    }
}

/// The CPU quantity in `resources`, in whole millicores.
pub fn cpu_of(resources: &Option<Labels>) -> (r: u32)
    ensures
        r == cpu_in(*resources),
{
    match resources {
        Some(map) => match look_up(map, "cpu") {
            Some(q) => parse_cpu_to_millicores(q.as_str()),
            None => 0,
        },
        None => 0,
    }
}

/// The memory quantity in `resources`, in whole MiB.
pub fn memory_of(resources: &Option<Labels>) -> (r: u32)
    ensures
        r == memory_in(*resources),
{
    match resources {
        Some(map) => match look_up(map, "memory") {
            Some(q) => parse_memory_to_mib(q.as_str()),
            None => 0,
        },
        None => 0,
    }
}

/// One node's allocatable CPU and memory and its CPU and memory capacity, zero
/// where the node's status does not report them.
pub fn node_resources(node: &Node) -> (r: [u32; 4])
    ensures
        r@ == resources_of(*node),
{
    match &node.status {
        Some(status) => {
            let r: [u32; 4] = [
                cpu_of(&status.allocatable),
                memory_of(&status.allocatable),
                cpu_of(&status.capacity),
                memory_of(&status.capacity),
            ];
            assert(r@ == resources_of(*node));
            r
        },
        None => {
            let r: [u32; 4] = [0, 0, 0, 0];
            assert(r@ == resources_of(*node));
            r
        },
    }
}

/// A pool while its nodes are still being counted.
struct PoolTotals {
    instance_type: String,
    region: String,
    capacity_type: String,
    count: u32,
    cpu_allocatable: u64,
    memory_allocatable: u64,
    cpu_capacity: u64,
    memory_capacity: u64,
}

spec fn totals_key(t: PoolTotals) -> (Seq<char>, Seq<char>, Seq<char>) {
    (t.instance_type@, t.region@, t.capacity_type@)
}

/// Whether `t` holds the size and the totals of its pool.
spec fn totals_right(t: PoolTotals, nodes: Seq<Node>) -> bool {
    let key = totals_key(t);
    &&& t.count > 0
    &&& t.count == pool_size(nodes, key)
    &&& t.cpu_allocatable == pool_total(nodes, key, 0)
    &&& t.memory_allocatable == pool_total(nodes, key, 1)
    &&& t.cpu_capacity == pool_total(nodes, key, 2)
    &&& t.memory_capacity == pool_total(nodes, key, 3)
}

spec fn totals_sorted(pools: Seq<PoolTotals>) -> bool {
    forall|i: int, j: int|
        0 <= i < j < pools.len() ==> key_before(
            totals_key(#[trigger] pools[i]),
            totals_key(#[trigger] pools[j]),
        )
}

spec fn totals_of(pools: Seq<PoolTotals>, nodes: Seq<Node>) -> bool {
    &&& forall|i: int| 0 <= i < pools.len() ==> totals_right(#[trigger] pools[i], nodes)
    &&& totals_sorted(pools)
    &&& forall|j: int| 0 <= j < nodes.len() ==> has_totals(pools, pool_key(#[trigger] nodes[j]))
}

spec fn has_totals(pools: Seq<PoolTotals>, key: (Seq<char>, Seq<char>, Seq<char>)) -> bool {
    exists|i: int| 0 <= i < pools.len() && totals_key(#[trigger] pools[i]) == key
}

proof fn lemma_key_before_irreflexive(a: (Seq<char>, Seq<char>, Seq<char>))
    ensures
        !key_before(a, a),
{
    lemma_precedes_irreflexive(a.2);
}

proof fn lemma_key_before_transitive(
    a: (Seq<char>, Seq<char>, Seq<char>),
    b: (Seq<char>, Seq<char>, Seq<char>),
    c: (Seq<char>, Seq<char>, Seq<char>),
)
    requires
        key_before(a, b),
        key_before(b, c),
    ensures
        key_before(a, c),
{
    if a.0 != b.0 && b.0 != c.0 {
        lemma_precedes_transitive(a.0, b.0, c.0);
        lemma_precedes_irreflexive(a.0);
    } else if a.0 == b.0 && b.0 == c.0 {
        if a.1 != b.1 && b.1 != c.1 {
            lemma_precedes_transitive(a.1, b.1, c.1);
            lemma_precedes_irreflexive(a.1);
        } else if a.1 == b.1 && b.1 == c.1 {
            lemma_precedes_transitive(a.2, b.2, c.2);
        }
    }
}

proof fn lemma_key_before_total(
    a: (Seq<char>, Seq<char>, Seq<char>),
    b: (Seq<char>, Seq<char>, Seq<char>),
)
    ensures
        a == b || key_before(a, b) || key_before(b, a),
{
    lemma_precedes_total(a.0, b.0);
    lemma_precedes_total(a.1, b.1);
    lemma_precedes_total(a.2, b.2);
}

proof fn lemma_pool_bounds(nodes: Seq<Node>, key: (Seq<char>, Seq<char>, Seq<char>), figure: int)
    requires
        0 <= figure < 4,
    ensures
        pool_size(nodes, key) <= nodes.len(),
        pool_total(nodes, key, figure) <= nodes.len() * u32::MAX,
    decreases nodes.len(),
{
    if nodes.len() > 0 {
        lemma_pool_bounds(nodes.drop_last(), key, figure);
    }
}

proof fn lemma_pool_absent(nodes: Seq<Node>, key: (Seq<char>, Seq<char>, Seq<char>), figure: int)
    requires
        forall|j: int| 0 <= j < nodes.len() ==> pool_key(#[trigger] nodes[j]) != key,
    ensures
        pool_size(nodes, key) == 0,
        pool_total(nodes, key, figure) == 0,
    decreases nodes.len(),
{
    if nodes.len() > 0 {
        let init = nodes.drop_last();
        assert forall|j: int| 0 <= j < init.len() implies pool_key(#[trigger] init[j]) != key by {
            assert(init[j] == nodes[j]);
        }
        lemma_pool_absent(init, key, figure);
    }
}

fn totals_before(t: &PoolTotals, meta: &NodeMeta) -> (r: bool)
    ensures
        r == key_before(
            totals_key(*t),
            (meta.instance_type@, meta.region@, meta.capacity_type@),
        ),
{
    if t.instance_type != meta.instance_type {
        text_before(t.instance_type.as_str(), meta.instance_type.as_str())
    } else if t.region != meta.region {
        text_before(t.region.as_str(), meta.region.as_str())
    } else {
        text_before(t.capacity_type.as_str(), meta.capacity_type.as_str())
    }
}

/// Adds a node to the totals of its pool.
fn count_node(
    pools: &mut Vec<PoolTotals>,
    meta: &NodeMeta,
    node: &Node,
    Ghost(nodes): Ghost<Seq<Node>>,
)
    requires
        totals_of(old(pools)@, nodes),
        nodes.len() < u32::MAX,
        pool_key(*node) == (meta.instance_type@, meta.region@, meta.capacity_type@),
    ensures
        totals_of(final(pools)@, nodes.push(*node)),
{
    let figures: [u32; 4] = node_resources(node);
    let ghost key = pool_key(*node);
    let ghost before = pools@;
    let mut i: usize = 0;
    while i < pools.len() && totals_before(&pools[i], meta)
        invariant
            i <= pools.len(),
            pools@ == before,
            key == (meta.instance_type@, meta.region@, meta.capacity_type@),
            forall|k: int| 0 <= k < i ==> key_before(totals_key(#[trigger] pools@[k]), key),
        decreases pools.len() - i,
    {
        i += 1;
    }
    let here: bool = i < pools.len() && pools[i].instance_type == meta.instance_type
        && pools[i].region == meta.region && pools[i].capacity_type == meta.capacity_type;
    let ghost after_nodes = nodes.push(*node);
    proof {
        assert(after_nodes.drop_last() == nodes);
        assert(after_nodes.last() == *node);
        lemma_pool_bounds(nodes, key, 0);
        lemma_pool_bounds(nodes, key, 1);
        lemma_pool_bounds(nodes, key, 2);
        lemma_pool_bounds(nodes, key, 3);
        assert(figures@ == resources_of(*node));
    }
    if here {
        assert(totals_key(before[i as int]) == key);
        assert(totals_right(before[i as int], nodes));
        let updated = PoolTotals {
            instance_type: pools[i].instance_type.clone(),
            region: pools[i].region.clone(),
            capacity_type: pools[i].capacity_type.clone(),
            count: pools[i].count + 1,
            cpu_allocatable: pools[i].cpu_allocatable + figures[0] as u64,
            memory_allocatable: pools[i].memory_allocatable + figures[1] as u64,
            cpu_capacity: pools[i].cpu_capacity + figures[2] as u64,
            memory_capacity: pools[i].memory_capacity + figures[3] as u64,
        };
        pools[i] = updated;
        proof {
            let after = pools@;
            assert(totals_key(after[i as int]) == key);
            assert forall|k: int| 0 <= k < after.len() implies totals_right(
                #[trigger] after[k],
                after_nodes,
            ) by {
                assert(totals_right(before[k], nodes));
                if k != i {
                    if k < i {
                        lemma_key_before_irreflexive(key);
                    } else {
                        assert(key_before(totals_key(before[i as int]), totals_key(before[k])));
                        lemma_key_before_irreflexive(key);
                    }
                    assert(totals_key(after[k]) != key);
                }
            }
            assert forall|j: int| 0 <= j < after_nodes.len() implies has_totals(
                after,
                pool_key(#[trigger] after_nodes[j]),
            ) by {
                if j < nodes.len() {
                    assert(after_nodes[j] == nodes[j]);
                    let k = choose|k: int|
                        0 <= k < before.len() && totals_key(#[trigger] before[k]) == pool_key(
                            nodes[j],
                        );
                    assert(totals_key(after[k]) == totals_key(before[k]));
                } else {
                    assert(totals_key(after[i as int]) == key);
                }
            }
            assert forall|a: int, b: int| 0 <= a < b < after.len() implies key_before(
                totals_key(#[trigger] after[a]),
                totals_key(#[trigger] after[b]),
            ) by {
                assert(totals_key(after[a]) == totals_key(before[a]));
                assert(totals_key(after[b]) == totals_key(before[b]));
            }
        }
    } else {
        proof {
            assert forall|k: int| 0 <= k < before.len() implies totals_key(#[trigger] before[k])
                != key by {
                if k < i {
                    lemma_key_before_irreflexive(key);
                } else if k > i {
                    assert(key_before(totals_key(before[i as int]), totals_key(before[k])));
                }
            }
            assert forall|j: int| 0 <= j < nodes.len() implies pool_key(#[trigger] nodes[j])
                != key by {
                let k = choose|k: int|
                    0 <= k < before.len() && totals_key(#[trigger] before[k]) == pool_key(nodes[j]);
            }
            lemma_pool_absent(nodes, key, 0);
            lemma_pool_absent(nodes, key, 1);
            lemma_pool_absent(nodes, key, 2);
            lemma_pool_absent(nodes, key, 3);
        }
        let added = PoolTotals {
            instance_type: meta.instance_type.clone(),
            region: meta.region.clone(),
            capacity_type: meta.capacity_type.clone(),
            count: 1,
            cpu_allocatable: figures[0] as u64,
            memory_allocatable: figures[1] as u64,
            cpu_capacity: figures[2] as u64,
            memory_capacity: figures[3] as u64,
        };
        pools.insert(i, added);
        proof {
            let after = pools@;
            assert(after == before.insert(i as int, added));
            assert(totals_key(after[i as int]) == key);
            assert(totals_right(after[i as int], after_nodes));
            assert forall|k: int| 0 <= k < after.len() implies totals_right(
                #[trigger] after[k],
                after_nodes,
            ) by {
                if k != i {
                    let k2 = if k < i { k } else { k - 1 };
                    assert(after[k] == before[k2]);
                    assert(totals_right(before[k2], nodes));
                    assert(totals_key(before[k2]) != key);
                }
            }
            assert forall|a: int, b: int| 0 <= a < b < after.len() implies key_before(
                totals_key(#[trigger] after[a]),
                totals_key(#[trigger] after[b]),
            ) by {
                let a2 = if a < i { a } else { a - 1 };
                let b2 = if b < i { b } else { b - 1 };
                if a != i {
                    assert(after[a] == before[a2]);
                }
                if b != i {
                    assert(after[b] == before[b2]);
                }
                if a == i {
                    // everything from place i on comes after the key
                    lemma_key_before_total(key, totals_key(before[i as int]));
                    if b2 > i {
                        lemma_key_before_transitive(
                            key,
                            totals_key(before[i as int]),
                            totals_key(before[b2]),
                        );
                    }
                }
            }
            assert forall|j: int| 0 <= j < after_nodes.len() implies has_totals(
                after,
                pool_key(#[trigger] after_nodes[j]),
            ) by {
                if j < nodes.len() {
                    assert(after_nodes[j] == nodes[j]);
                    let k = choose|k: int|
                        0 <= k < before.len() && totals_key(#[trigger] before[k]) == pool_key(
                            nodes[j],
                        );
                    let k2 = if k < i { k } else { k + 1 };
                    assert(after[k2] == before[k]);
                } else {
                    assert(totals_key(after[i as int]) == key);
                }
            }
        }
    }
}

fn share(total: u64, count: u32) -> (r: u32)
    requires
        count > 0,
    ensures
        r == per_node(total as nat, count as nat),
{
    let each: u64 = total / count as u64;
    if each <= u32::MAX as u64 {
        each as u32
    } else {
        u32::MAX
    }
}

/// Turns totals into per-node figures.
fn finish_pools(pools: Vec<PoolTotals>, Ghost(nodes): Ghost<Seq<Node>>) -> (r: Vec<NodePool>)
    requires
        totals_of(pools@, nodes),
    ensures
        pools_of(r@, nodes),
{
    let mut out: Vec<NodePool> = Vec::new();
    let mut i: usize = 0;
    while i < pools.len()
        invariant
            i <= pools.len(),
            totals_of(pools@, nodes),
            out@.len() == i,
            forall|k: int|
                0 <= k < i ==> key_of(#[trigger] out@[k]) == totals_key(pools@[k]) && sums_up(
                    out@[k],
                    nodes,
                ),
        decreases pools.len() - i,
    {
        let t = &pools[i];
        assert(totals_right(pools@[i as int], nodes));
        out.push(
            NodePool {
                instance_type: t.instance_type.clone(),
                region: t.region.clone(),
                capacity_type: t.capacity_type.clone(),
                node_count: t.count,
                cpu_allocatable_m: share(t.cpu_allocatable, t.count),
                memory_allocatable_mi: share(t.memory_allocatable, t.count),
                cpu_capacity_m: share(t.cpu_capacity, t.count),
                memory_capacity_mi: share(t.memory_capacity, t.count),
            },
        );
        i += 1;
    }
    proof {
        assert forall|k: int| 0 <= k < out@.len() implies sums_up(#[trigger] out@[k], nodes) by {
            assert(key_of(out@[k]) == totals_key(pools@[k]));
        }
        assert forall|a: int, b: int| 0 <= a < b < out@.len() implies key_before(
            key_of(#[trigger] out@[a]),
            key_of(#[trigger] out@[b]),
        ) by {
            assert(key_before(totals_key(pools@[a]), totals_key(pools@[b])));
        }
        assert forall|j: int| 0 <= j < nodes.len() implies has_pool(
            out@,
            pool_key(#[trigger] nodes[j]),
        ) by {
            let k = choose|k: int|
                0 <= k < pools@.len() && totals_key(#[trigger] pools@[k]) == pool_key(nodes[j]);
            assert(key_of(out@[k]) == totals_key(pools@[k]));
        }
    }
    out
}

/// Whether `counts` holds the size of each region that some node is in.
spec fn regions_counted(counts: Map<Seq<char>, u32>, nodes: Seq<Node>) -> bool {
    &&& forall|r: Seq<char>| #[trigger]
        counts.dom().contains(r) <==> r.len() > 0 && region_size(nodes, r) > 0
    &&& forall|r: Seq<char>| #[trigger]
        counts.dom().contains(r) ==> counts[r] == region_size(nodes, r)
}

proof fn lemma_region_bound(nodes: Seq<Node>, region: Seq<char>)
    ensures
        region_size(nodes, region) <= nodes.len(),
        region_size(nodes, region) > 0 <==> exists|j: int|
            0 <= j < nodes.len() && region_of(#[trigger] nodes[j]) == region,
    decreases nodes.len(),
{
    if nodes.len() > 0 {
        let init = nodes.drop_last();
        lemma_region_bound(init, region);
        if region_size(init, region) > 0 {
            let j = choose|j: int| 0 <= j < init.len() && region_of(#[trigger] init[j]) == region;
            assert(region_of(nodes[j]) == region);
        }
        if region_of(nodes.last()) == region {
            assert(region_of(nodes[nodes.len() - 1]) == region);
        }
        if exists|j: int| 0 <= j < nodes.len() && region_of(#[trigger] nodes[j]) == region {
            let j = choose|j: int| 0 <= j < nodes.len() && region_of(#[trigger] nodes[j]) == region;
            if j < init.len() {
                assert(region_of(init[j]) == region);
            }
        }
    }
}

/// Counts the region of a node.
fn count_region(
    counts: &mut Table<String, u32>,
    region: &String,
    Ghost(nodes): Ghost<Seq<Node>>,
    Ghost(node): Ghost<Node>,
)
    requires
        regions_counted(old(counts).deep_view(), nodes),
        nodes.len() < u32::MAX,
        region@ == region_of(node),
    ensures
        regions_counted(final(counts).deep_view(), nodes.push(node)),
{
    let ghost before = counts.deep_view();
    let ghost after_nodes = nodes.push(node);
    assert(after_nodes.drop_last() == nodes);
    if region.as_str().is_empty() {
        return;
    }
    let seen: u32 = match counts.get(region) {
        Some(n) => *n,
        None => 0,
    };
    proof {
        lemma_region_bound(nodes, region@);
        assert(before.dom().contains(region@) <==> region_size(nodes, region@) > 0);
    }
    counts.insert(region.clone(), seen + 1);
    proof {
        let after = counts.deep_view();
        assert(after == before.insert(region@, (seen + 1) as u32));
        assert forall|r: Seq<char>| #[trigger]
            after.dom().contains(r) <==> r.len() > 0 && region_size(after_nodes, r) > 0 by {
            assert(before.dom().contains(r) <==> r.len() > 0 && region_size(nodes, r) > 0);
        }
        assert forall|r: Seq<char>| #[trigger] after.dom().contains(r) implies after[r]
            == region_size(after_nodes, r) by {
            assert(before.dom().contains(r) <==> r.len() > 0 && region_size(nodes, r) > 0);
        }
    }
}

/// Whether the entry at `b` comes before the entry at `k`: more nodes, or as many
/// and an earlier name.
spec fn region_wins(entries: Seq<(String, u32)>, b: int, k: int) -> bool {
    ||| b == k
    ||| entries[k].1 < entries[b].1
    ||| entries[k].1 == entries[b].1 && precedes(entries[b].0@, entries[k].0@)
}

/// Picks the most common region.
fn pick_region(counts: &Table<String, u32>, Ghost(nodes): Ghost<Seq<Node>>) -> (r: String)
    requires
        regions_counted(counts.deep_view(), nodes),
    ensures
        primary_region(r@, nodes),
{
    counts.keys_are_distinct();
    let ghost entries = counts.list();
    let ghost map = counts.deep_view();
    proof {
        assert(map == map_of(entries));
        assert forall|k: int| 0 <= k < entries.len() implies entries[k].0@.len() > 0
            && entries[k].1 == region_size(nodes, #[trigger] entries[k].0@) && entries[k].1 > 0 by {
            crate::table::lemma_found(entries, k);
            assert(map.dom().contains(entries[k].0@));
        }
        assert forall|r: Seq<char>|
            r.len() > 0 && region_size(nodes, r) > 0 implies exists|k: int|
            0 <= k < entries.len() && #[trigger] entries[k].0@ == r by {
            assert(map.dom().contains(r));
            let k = crate::table::entry_under(entries, r)->0;
            assert(entries[k].0.deep_view() == r);
        }
    }
    if counts.len() == 0 {
        proof {
            assert forall|j: int| 0 <= j < nodes.len() implies region_of(#[trigger] nodes[j]).len()
                == 0 by {
                lemma_region_bound(nodes, region_of(nodes[j]));
            }
        }
        return String::new();
    }
    let mut best: usize = 0;
    let mut i: usize = 1;
    while i < counts.len()
        invariant
            entries == counts.list(),
            best < i <= entries.len(),
            crate::table::keys_distinct(entries),
            forall|k: int| 0 <= k < i ==> #[trigger] region_wins(entries, best as int, k),
        decreases entries.len() - i,
    {
        let more: bool = *counts.value_at(i) > *counts.value_at(best);
        let tie: bool = *counts.value_at(i) == *counts.value_at(best);
        if more || (tie && text_before(counts.key_at(i).as_str(), counts.key_at(best).as_str())) {
            proof {
                assert forall|k: int| 0 <= k < i + 1 implies #[trigger] region_wins(
                    entries,
                    i as int,
                    k,
                ) by {
                    if k < i {
                        assert(region_wins(entries, best as int, k));
                        if k != best && tie && entries[k].1 == entries[best as int].1 {
                            lemma_precedes_transitive(
                                entries[i as int].0@,
                                entries[best as int].0@,
                                entries[k].0@,
                            );
                        }
                    }
                }
            }
            best = i;
        } else {
            proof {
                assert(region_wins(entries, best as int, i as int)) by {
                    lemma_precedes_total(entries[i as int].0@, entries[best as int].0@);
                    assert(entries[i as int].0.deep_view() != entries[best as int].0.deep_view());
                }
            }
        }
        i += 1;
    }
    proof {
        let region = entries[best as int].0@;
        lemma_region_bound(nodes, region);
        assert forall|other: Seq<char>| other.len() > 0 && other != region implies region_size(
            nodes,
            other,
        ) < region_size(nodes, region) || (#[trigger] region_size(nodes, other) == region_size(
            nodes,
            region,
        ) && precedes(region, other)) by {
            if region_size(nodes, other) > 0 {
                let k = choose|k: int| 0 <= k < entries.len() && #[trigger] entries[k].0@ == other;
                assert(region_wins(entries, best as int, k));
                assert(entries[best as int].1 == region_size(nodes, entries[best as int].0@));
            } else {
                assert(entries[best as int].1 > 0);
            }
        }
        let j = choose|j: int| 0 <= j < nodes.len() && region_of(#[trigger] nodes[j]) == region;
        assert(region_of(nodes[j]).len() > 0);
    }
    counts.key_at(best).clone()
}

/// Groups nodes into pools by instance type, region and capacity type, and tells
/// the cluster's primary region and its cloud provider.
///
/// A node without an instance-type label still counts toward a pool. The primary
/// region is the most common one, the first in the order of strings among equally
/// common ones, and empty if no node reports a region. The cloud provider is the
/// first one that a node names.
pub fn aggregate_node_pools(nodes: &[Node]) -> (r: (Vec<NodePool>, String, String))
    requires
        nodes@.len() <= u32::MAX,
    ensures
        pools_of(r.0@, nodes@),
        primary_region(r.1@, nodes@),
        r.2@ == first_provider(nodes@),
{
    let mut pools: Vec<PoolTotals> = Vec::new();
    let mut regions: Table<String, u32> = Table::new();
    let mut provider: String = String::new();
    let mut i: usize = 0;
    while i < nodes.len()
        invariant
            i <= nodes@.len() <= u32::MAX,
            totals_of(pools@, nodes@.take(i as int)),
            regions_counted(regions.deep_view(), nodes@.take(i as int)),
            provider@ == first_provider(nodes@.take(i as int)),
        decreases nodes@.len() - i,
    {
        let node: &Node = &nodes[i];
        let ghost before = nodes@.take(i as int);
        assert(nodes@.take(i + 1) == before.push(*node));
        assert(before.push(*node).drop_last() == before);
        let meta = node_meta(node);
        count_region(&mut regions, &meta.region, Ghost(before), Ghost(*node));
        count_node(&mut pools, &meta, node, Ghost(before));
        if provider.as_str().is_empty() {
            provider = meta.provider;
        }
        i += 1;
    }
    assert(nodes@.take(nodes@.len() as int) == nodes@);
    let region = pick_region(&regions, Ghost(nodes@));
    (finish_pools(pools, Ghost(nodes@)), region, provider)
}

/// The number of nodes that `pools` count.
pub open spec fn counted(pools: Seq<NodePool>) -> nat
    decreases pools.len(),
{
    if pools.len() == 0 {
        0
    } else {
        counted(pools.drop_last()) + pools.last().node_count as nat
    }
}

spec fn sizes(nodes: Seq<Node>, keys: Seq<(Seq<char>, Seq<char>, Seq<char>)>) -> nat
    decreases keys.len(),
{
    if keys.len() == 0 {
        0
    } else {
        sizes(nodes, keys.drop_last()) + pool_size(nodes, keys.last())
    }
}

spec fn hits(
    keys: Seq<(Seq<char>, Seq<char>, Seq<char>)>,
    key: (Seq<char>, Seq<char>, Seq<char>),
) -> nat
    decreases keys.len(),
{
    if keys.len() == 0 {
        0
    } else {
        hits(keys.drop_last(), key) + if keys.last() == key {
            1nat
        } else {
            0
        }
    }
}

proof fn lemma_sizes_push(
    nodes: Seq<Node>,
    node: Node,
    keys: Seq<(Seq<char>, Seq<char>, Seq<char>)>,
)
    ensures
        sizes(nodes.push(node), keys) == sizes(nodes, keys) + hits(keys, pool_key(node)),
    decreases keys.len(),
{
    if keys.len() > 0 {
        lemma_sizes_push(nodes, node, keys.drop_last());
        assert(nodes.push(node).drop_last() == nodes);
    }
}

proof fn lemma_hits(
    keys: Seq<(Seq<char>, Seq<char>, Seq<char>)>,
    key: (Seq<char>, Seq<char>, Seq<char>),
)
    requires
        keys.no_duplicates(),
    ensures
        hits(keys, key) == if keys.contains(key) {
            1nat
        } else {
            0
        },
    decreases keys.len(),
{
    if keys.len() > 0 {
        let init = keys.drop_last();
        lemma_hits(init, key);
        if keys.last() == key {
            assert(keys[keys.len() - 1] == key);
            assert(!init.contains(key));
        } else if keys.contains(key) {
            let i = choose|i: int| 0 <= i < keys.len() && keys[i] == key;
            assert(init[i] == key);
        }
    }
}

proof fn lemma_sizes_cover(nodes: Seq<Node>, keys: Seq<(Seq<char>, Seq<char>, Seq<char>)>)
    requires
        keys.no_duplicates(),
        forall|j: int| 0 <= j < nodes.len() ==> keys.contains(pool_key(#[trigger] nodes[j])),
    ensures
        sizes(nodes, keys) == nodes.len(),
    decreases nodes.len(),
{
    if nodes.len() == 0 {
        lemma_sizes_empty(nodes, keys);
    } else {
        let init = nodes.drop_last();
        assert forall|j: int| 0 <= j < init.len() implies keys.contains(
            pool_key(#[trigger] init[j]),
        ) by {
            assert(init[j] == nodes[j]);
        }
        lemma_sizes_cover(init, keys);
        lemma_sizes_push(init, nodes.last(), keys);
        assert(init.push(nodes.last()) == nodes);
        assert(keys.contains(pool_key(nodes[nodes.len() - 1])));
        lemma_hits(keys, pool_key(nodes.last()));
    }
}

proof fn lemma_sizes_empty(nodes: Seq<Node>, keys: Seq<(Seq<char>, Seq<char>, Seq<char>)>)
    requires
        nodes.len() == 0,
    ensures
        sizes(nodes, keys) == 0,
    decreases keys.len(),
{
    if keys.len() > 0 {
        lemma_sizes_empty(nodes, keys.drop_last());
    }
}

proof fn lemma_counted(pools: Seq<NodePool>, nodes: Seq<Node>)
    requires
        forall|i: int| 0 <= i < pools.len() ==> sums_up(#[trigger] pools[i], nodes),
    ensures
        counted(pools) == sizes(nodes, Seq::new(pools.len(), |i: int| key_of(pools[i]))),
    decreases pools.len(),
{
    if pools.len() > 0 {
        let init = pools.drop_last();
        assert forall|i: int| 0 <= i < init.len() implies sums_up(#[trigger] init[i], nodes) by {
            assert(init[i] == pools[i]);
        }
        lemma_counted(init, nodes);
        let keys = Seq::new(pools.len(), |i: int| key_of(pools[i]));
        assert(keys.drop_last() == Seq::new(init.len(), |i: int| key_of(init[i])));
        assert(sums_up(pools[pools.len() - 1], nodes));
    }
}

/// Every node is counted in exactly one pool: the node counts of the pools add up
/// to the number of nodes.
pub proof fn law_pools_count_every_node(pools: Seq<NodePool>, nodes: Seq<Node>)
    requires
        pools_of(pools, nodes),
    ensures
        counted(pools) == nodes.len(),
{
    let keys = Seq::new(pools.len(), |i: int| key_of(pools[i]));
    lemma_counted(pools, nodes);
    assert(keys.no_duplicates()) by {
        assert forall|i: int, j: int| 0 <= i < keys.len() && 0 <= j < keys.len() && i != j implies keys[i]
            != keys[j] by {
            lemma_key_before_irreflexive(keys[i]);
            if i < j {
                assert(key_before(key_of(pools[i]), key_of(pools[j])));
            } else {
                assert(key_before(key_of(pools[j]), key_of(pools[i])));
            }
        }
    }
    assert forall|j: int| 0 <= j < nodes.len() implies keys.contains(pool_key(#[trigger] nodes[j])) by {
        assert(has_pool(pools, pool_key(nodes[j])));
        let i = choose|i: int| 0 <= i < pools.len() && key_of(#[trigger] pools[i]) == pool_key(
            nodes[j],
        );
        assert(keys[i] == pool_key(nodes[j]));
    }
    lemma_sizes_cover(nodes, keys);
}

/// The pools of the nodes do not depend on anything but the nodes: two lists of
/// pools for the same nodes have the same keys in the same order.
pub proof fn law_pools_are_determined(a: Seq<NodePool>, b: Seq<NodePool>, nodes: Seq<Node>)
    requires
        pools_of(a, nodes),
        pools_of(b, nodes),
    ensures
        a.len() == b.len(),
        forall|i: int|
            0 <= i < a.len() ==> key_of(#[trigger] a[i]) == key_of(b[i]) && a[i].node_count
                == b[i].node_count && a[i].cpu_allocatable_m == b[i].cpu_allocatable_m
                && a[i].memory_allocatable_mi == b[i].memory_allocatable_mi && a[i].cpu_capacity_m
                == b[i].cpu_capacity_m && a[i].memory_capacity_mi == b[i].memory_capacity_mi,
{
    lemma_keys_agree(a, b, nodes, 0);
    lemma_keys_agree(b, a, nodes, 0);
    if a.len() > b.len() {
        lemma_keys_agree(a, b, nodes, b.len());
    }
    if b.len() > a.len() {
        lemma_keys_agree(b, a, nodes, a.len());
    }
    assert forall|i: int| 0 <= i < a.len() implies key_of(#[trigger] a[i]) == key_of(b[i])
        && a[i].node_count == b[i].node_count && a[i].cpu_allocatable_m == b[i].cpu_allocatable_m
        && a[i].memory_allocatable_mi == b[i].memory_allocatable_mi && a[i].cpu_capacity_m
        == b[i].cpu_capacity_m && a[i].memory_capacity_mi == b[i].memory_capacity_mi by {
        lemma_keys_agree(a, b, nodes, i as nat);
        assert(sums_up(a[i], nodes) && sums_up(b[i], nodes));
    }
}

proof fn lemma_pool_member(nodes: Seq<Node>, key: (Seq<char>, Seq<char>, Seq<char>))
    requires
        pool_size(nodes, key) > 0,
    ensures
        exists|j: int| 0 <= j < nodes.len() && pool_key(#[trigger] nodes[j]) == key,
{
    if forall|j: int| 0 <= j < nodes.len() ==> pool_key(#[trigger] nodes[j]) != key {
        lemma_pool_absent(nodes, key, 0);
    }
}

/// The key of a pool of one list is among the keys of the other.
proof fn lemma_keys_shared(a: Seq<NodePool>, b: Seq<NodePool>, nodes: Seq<Node>, i: int)
    requires
        pools_of(a, nodes),
        pools_of(b, nodes),
        0 <= i < a.len(),
    ensures
        has_pool(b, key_of(a[i])),
{
    assert(sums_up(a[i], nodes));
    lemma_pool_member(nodes, key_of(a[i]));
    let j = choose|j: int| 0 <= j < nodes.len() && pool_key(#[trigger] nodes[j]) == key_of(a[i]);
    assert(has_pool(b, pool_key(nodes[j])));
}

proof fn lemma_keys_agree(a: Seq<NodePool>, b: Seq<NodePool>, nodes: Seq<Node>, n: nat)
    requires
        pools_of(a, nodes),
        pools_of(b, nodes),
        n < a.len() || n == 0,
    ensures
        n < a.len() ==> n < b.len() && key_of(a[n as int]) == key_of(b[n as int]),
    decreases n,
{
    if n < a.len() {
        assert forall|k: int| 0 <= k < n implies k < b.len() && key_of(#[trigger] a[k]) == key_of(
            b[k],
        ) by {
            lemma_keys_agree(a, b, nodes, k as nat);
        }
        let key = key_of(a[n as int]);
        lemma_keys_shared(a, b, nodes, n as int);
        let m = choose|m: int| 0 <= m < b.len() && key_of(#[trigger] b[m]) == key;
        if m < n {
            assert(key_of(a[m]) == key_of(b[m]));
            assert(key_before(key_of(a[m]), key_of(a[n as int])));
            lemma_key_before_irreflexive(key);
        } else if m > n {
            // b[n] is before b[m], and is the key of some a[k]
            let other = key_of(b[n as int]);
            assert(key_before(other, key_of(b[m])));
            lemma_keys_shared(b, a, nodes, n as int);
            let k = choose|k: int| 0 <= k < a.len() && key_of(#[trigger] a[k]) == other;
            if k < n {
                assert(key_of(a[k]) == key_of(b[k]));
                assert(key_before(key_of(b[k]), key_of(b[n as int])));
                lemma_key_before_irreflexive(other);
            } else if k == n {
                lemma_key_before_irreflexive(key);
            } else {
                assert(key_before(key_of(a[n as int]), key_of(a[k])));
                lemma_key_before_transitive(key, other, key);
                lemma_key_before_irreflexive(key);
            }
        }
    }
}

/// Taking a node out takes exactly its share out of every count and total.
proof fn lemma_node_removed(
    nodes: Seq<Node>,
    i: int,
    key: (Seq<char>, Seq<char>, Seq<char>),
    figure: int,
    region: Seq<char>,
)
    requires
        0 <= i < nodes.len(),
    ensures
        pool_size(nodes, key) == pool_size(nodes.remove(i), key) + if pool_key(nodes[i]) == key {
            1nat
        } else {
            0
        },
        pool_total(nodes, key, figure) == pool_total(nodes.remove(i), key, figure) + if pool_key(
            nodes[i],
        ) == key {
            resources_of(nodes[i])[figure] as nat
        } else {
            0
        },
        region_size(nodes, region) == region_size(nodes.remove(i), region) + if region_of(nodes[i])
            == region {
            1nat
        } else {
            0
        },
    decreases nodes.len(),
{
    if i == nodes.len() - 1 {
        assert(nodes.remove(i) == nodes.drop_last());
    } else {
        assert(nodes.remove(i).drop_last() == nodes.drop_last().remove(i));
        assert(nodes.remove(i).last() == nodes.last());
        lemma_node_removed(nodes.drop_last(), i, key, figure, region);
    }
}

/// Counts and totals over nodes do not depend on their order.
proof fn lemma_counts_ignore_order(
    a: Seq<Node>,
    b: Seq<Node>,
    key: (Seq<char>, Seq<char>, Seq<char>),
    figure: int,
    region: Seq<char>,
)
    requires
        a.to_multiset() == b.to_multiset(),
    ensures
        pool_size(a, key) == pool_size(b, key),
        pool_total(a, key, figure) == pool_total(b, key, figure),
        region_size(a, region) == region_size(b, region),
    decreases a.len(),
{
    a.to_multiset_ensures();
    b.to_multiset_ensures();
    if a.len() > 0 {
        let node = a.last();
        assert(a.contains(node));
        vstd::seq_lib::to_multiset_contains(a, node);
        vstd::seq_lib::to_multiset_contains(b, node);
        let i = choose|i: int| 0 <= i < b.len() && b[i] == node;
        assert(a.remove(a.len() - 1) == a.drop_last());
        assert(a.drop_last().to_multiset() == b.remove(i).to_multiset());
        lemma_node_removed(b, i, key, figure, region);
        lemma_counts_ignore_order(a.drop_last(), b.remove(i), key, figure, region);
    }
}

/// The pools and the primary region are the same in whatever order the nodes come.
pub proof fn law_order_of_nodes_does_not_matter(
    a: Seq<Node>,
    b: Seq<Node>,
    pools: Seq<NodePool>,
    region: Seq<char>,
)
    requires
        a.to_multiset() == b.to_multiset(),
    ensures
        pools_of(pools, a) ==> pools_of(pools, b),
        primary_region(region, a) ==> primary_region(region, b),
{
    assert forall|j: int| 0 <= j < b.len() implies a.contains(#[trigger] b[j]) by {
        assert(b.contains(b[j]));
        vstd::seq_lib::to_multiset_contains(a, b[j]);
        vstd::seq_lib::to_multiset_contains(b, b[j]);
    }
    assert forall|j: int| 0 <= j < a.len() implies b.contains(#[trigger] a[j]) by {
        assert(a.contains(a[j]));
        vstd::seq_lib::to_multiset_contains(a, a[j]);
        vstd::seq_lib::to_multiset_contains(b, a[j]);
    }
    if pools_of(pools, a) {
        assert forall|i: int| 0 <= i < pools.len() implies sums_up(#[trigger] pools[i], b) by {
            assert(sums_up(pools[i], a));
            lemma_counts_ignore_order(a, b, key_of(pools[i]), 0, region);
            lemma_counts_ignore_order(a, b, key_of(pools[i]), 1, region);
            lemma_counts_ignore_order(a, b, key_of(pools[i]), 2, region);
            lemma_counts_ignore_order(a, b, key_of(pools[i]), 3, region);
        }
        assert forall|j: int| 0 <= j < b.len() implies has_pool(
            pools,
            pool_key(#[trigger] b[j]),
        ) by {
            let i = choose|i: int| 0 <= i < a.len() && a[i] == b[j];
            assert(has_pool(pools, pool_key(a[i])));
        }
    }
    if primary_region(region, a) {
        let nowhere = (Seq::<char>::empty(), Seq::<char>::empty(), Seq::<char>::empty());
        assert forall|other: Seq<char>| #[trigger]
            region_size(b, other) == region_size(a, other) by {
            lemma_counts_ignore_order(a, b, nowhere, 0, other);
        }
        if forall|j: int| 0 <= j < a.len() ==> region_of(#[trigger] a[j]).len() == 0 {
            assert forall|j: int| 0 <= j < b.len() implies region_of(#[trigger] b[j]).len()
                == 0 by {
                let i = choose|i: int| 0 <= i < a.len() && a[i] == b[j];
                assert(region_of(a[i]).len() == 0);
            }
        } else {
            let i = choose|i: int| 0 <= i < a.len() && region_of(#[trigger] a[i]).len() != 0;
            let j = choose|j: int| 0 <= j < b.len() && b[j] == a[i];
            assert(region_of(b[j]).len() != 0);
            assert forall|other: Seq<char>| other.len() > 0 && other != region implies region_size(
                b,
                other,
            ) < region_size(b, region) || (#[trigger] region_size(b, other) == region_size(b, region)
                && precedes(region, other)) by {
                assert(region_size(b, other) == region_size(a, other));
            }
        }
    }
}

} // verus!
