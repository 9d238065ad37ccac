//! What holds of nodes and node pools.

use crate::nodes::{
    capacity_type, cpu_in, first_provider, instance_type_of, key_of, labels_of, memory_in,
    node_provider, pool_key, pool_size, pool_total, pools_of, primary_region, provider_of,
    region_of, region_size, resources_of, Node, NodePool,
};
use crate::quantity::{whole_mib, whole_millicores};
use crate::table::Labels;
use crate::text::{find, precedes};
use crate::text_laws::law_first_occurrence_is_found;
use vstd::prelude::*;

verus! {

/// Whether `labels` hold `value` under `key`.
pub open spec fn labelled(
    labels: Map<Seq<char>, Seq<char>>,
    key: Seq<char>,
    value: Seq<char>,
) -> bool {
    labels.contains_pair(key, value)
}

/// A node is spot exactly where a label has a value that says so; a label of the same
/// key with any other value does not.
pub proof fn law_spot_needs_a_label_that_says_so(labels: Map<Seq<char>, Seq<char>>)
    ensures
        capacity_type(labels) == "spot"@ || capacity_type(labels) == "on-demand"@,
        "spot"@ != "on-demand"@,
        capacity_type(labels) == "spot"@ <==> labelled(
            labels,
            "karpenter.sh/capacity-type"@,
            "spot"@,
        ) || labelled(labels, "eks.amazonaws.com/capacityType"@, "SPOT"@) || labelled(
            labels,
            "cloud.google.com/gke-spot"@,
            "true"@,
        ) || labelled(labels, "kubernetes.azure.com/scalesetpriority"@, "spot"@),
{
    reveal_strlit("spot");
    reveal_strlit("on-demand");
    assert("spot"@.len() != "on-demand"@.len());
}

/// An on-demand label makes no node spot: where none of the signals has its spot value,
/// the node is on-demand.
pub proof fn law_without_a_spot_value_a_node_is_on_demand(labels: Map<Seq<char>, Seq<char>>)
    requires
        !labelled(labels, "karpenter.sh/capacity-type"@, "spot"@),
        !labelled(labels, "eks.amazonaws.com/capacityType"@, "SPOT"@),
        !labelled(labels, "cloud.google.com/gke-spot"@, "true"@),
        !labelled(labels, "kubernetes.azure.com/scalesetpriority"@, "spot"@),
    ensures
        capacity_type(labels) == "on-demand"@,
{
}

/// The instance type and the region are under their current labels, else under the
/// legacy ones, else unknown.
pub proof fn law_current_labels_come_before_legacy_ones(node: Node, value: Seq<char>)
    ensures
        labelled(labels_of(node), "node.kubernetes.io/instance-type"@, value) ==> instance_type_of(
            node,
        ) == value,
        !labels_of(node).dom().contains("node.kubernetes.io/instance-type"@) && labelled(
            labels_of(node),
            "beta.kubernetes.io/instance-type"@,
            value,
        ) ==> instance_type_of(node) == value,
        !labels_of(node).dom().contains("node.kubernetes.io/instance-type"@) && !labels_of(
            node,
        ).dom().contains("beta.kubernetes.io/instance-type"@) ==> instance_type_of(node).len() == 0,
        labelled(labels_of(node), "topology.kubernetes.io/region"@, value) ==> region_of(node)
            == value,
        !labels_of(node).dom().contains("topology.kubernetes.io/region"@) && labelled(
            labels_of(node),
            "failure-domain.beta.kubernetes.io/region"@,
            value,
        ) ==> region_of(node) == value,
        !labels_of(node).dom().contains("topology.kubernetes.io/region"@) && !labels_of(
            node,
        ).dom().contains("failure-domain.beta.kubernetes.io/region"@) ==> region_of(node).len()
            == 0,
{
}

/// The labels of a node are those that it carries.
pub proof fn law_labels_are_those_of_the_node(node: Node)
    ensures
        node.labels is None ==> labels_of(node) == Map::<Seq<char>, Seq<char>>::empty(),
        node.labels matches Some(labels) ==> labels_of(node) == labels.deep_view(),
{
}

/// A pool is told by the instance type, the region and the capacity type of its nodes.
pub proof fn law_pools_are_told_by_three_things(a: Node, b: Node)
    ensures
        pool_key(a) == pool_key(b) <==> instance_type_of(a) == instance_type_of(b) && region_of(a)
            == region_of(b) && capacity_type(labels_of(a)) == capacity_type(labels_of(b)),
        pool_key(a).0 == instance_type_of(a),
        pool_key(a).1 == region_of(a),
        pool_key(a).2 == capacity_type(labels_of(a)),
{
}

/// Whether `://` stands at `i` in a provider id.
pub open spec fn scheme_ends_at(id: Seq<char>, i: int) -> bool {
    &&& 0 <= i
    &&& i + 3 <= id.len()
    &&& id[i] == ':'
    &&& id[i + 1] == '/'
    &&& id[i + 2] == '/'
}

/// The provider is what stands before the first `://` of the provider id, with `gce`
/// called `gcp`; an id without `://` names no provider.
pub proof fn law_provider_is_the_scheme(id: Seq<char>, i: int)
    ensures
        scheme_ends_at(id, i) && (forall|j: int| 0 <= j < i ==> !#[trigger] scheme_ends_at(id, j))
            ==> provider_of(id) == if id.take(i) == seq!['g', 'c', 'e'] {
            seq!['g', 'c', 'p']
        } else {
            id.take(i)
        },
        (forall|j: int| !#[trigger] scheme_ends_at(id, j)) ==> provider_of(id).len() == 0,
{
    reveal_strlit("://");
    reveal_strlit("gce");
    reveal_strlit("gcp");
    assert("gce"@ == seq!['g', 'c', 'e']);
    assert("gcp"@ == seq!['g', 'c', 'p']);
    let pattern = "://"@;
    law_first_occurrence_is_found(id, pattern);
    assert forall|j: int| 0 <= j && j + 3 <= id.len() implies #[trigger] scheme_ends_at(id, j) == (
    id.subrange(j, j + 3) == pattern) by {
        let part = id.subrange(j, j + 3);
        assert(part[0] == id[j] && part[1] == id[j + 1] && part[2] == id[j + 2]);
        if scheme_ends_at(id, j) {
            assert(part == pattern);
        }
    }
    match find(id, pattern) {
        Some(k) => {
            assert(scheme_ends_at(id, k));
            if scheme_ends_at(id, i) && (forall|j: int|
                0 <= j < i ==> !#[trigger] scheme_ends_at(id, j)) {
                if i < k {
                    assert(id.subrange(i, i + 3) != pattern);
                }
                assert(i == k);
            }
        },
        None => {
            if scheme_ends_at(id, i) {
                assert(id.subrange(i, i + 3) != pattern);
            }
        },
    }
}

/// The provider of a node is that of its provider id.
pub proof fn law_provider_comes_from_the_id(node: Node)
    ensures
        node.provider_id is None ==> node_provider(node).len() == 0,
        node.provider_id matches Some(id) ==> node_provider(node) == provider_of(id@),
{
}

/// The cloud provider is that of the first node that names one: every node before it
/// names none. Where it is unknown, no node names one.
pub proof fn law_provider_is_that_of_the_first_node_that_names_one(nodes: Seq<Node>)
    ensures
        first_provider(nodes).len() == 0 ==> forall|j: int|
            0 <= j < nodes.len() ==> node_provider(#[trigger] nodes[j]).len() == 0,
        first_provider(nodes).len() > 0 ==> exists|i: int|
            0 <= i < nodes.len() && node_provider(#[trigger] nodes[i]) == first_provider(nodes)
                && forall|j: int| 0 <= j < i ==> node_provider(#[trigger] nodes[j]).len() == 0,
    decreases nodes.len(),
{
    if nodes.len() > 0 {
        let init = nodes.drop_last();
        law_provider_is_that_of_the_first_node_that_names_one(init);
        assert forall|j: int| 0 <= j < init.len() implies init[j] == #[trigger] nodes[j] by {}
        if first_provider(init).len() > 0 {
            let i = choose|i: int|
                0 <= i < init.len() && node_provider(#[trigger] init[i]) == first_provider(init)
                    && forall|j: int| 0 <= j < i ==> node_provider(#[trigger] init[j]).len() == 0;
            assert(node_provider(nodes[i]) == first_provider(nodes));
            assert forall|j: int| 0 <= j < i implies node_provider(#[trigger] nodes[j]).len()
                == 0 by {
                assert(node_provider(init[j]).len() == 0);
            }
        } else {
            assert forall|j: int| 0 <= j < nodes.len() - 1 implies node_provider(
                #[trigger] nodes[j],
            ).len() == 0 by {
                assert(node_provider(init[j]).len() == 0);
            }
            assert(node_provider(nodes[nodes.len() - 1]) == first_provider(nodes));
        }
    }
}

/// A figure of resources is the quantity under its name, and zero where there is none.
pub proof fn law_resources_are_read_by_name(
    resources: Labels,
    quantity: Seq<char>,
)
    ensures
        labelled(resources.deep_view(), "cpu"@, quantity) ==> cpu_in(Some(resources))
            == whole_millicores(quantity),
        labelled(resources.deep_view(), "memory"@, quantity) ==> memory_in(Some(resources))
            == whole_mib(quantity),
        !resources.deep_view().dom().contains("cpu"@) ==> cpu_in(Some(resources)) == 0,
        !resources.deep_view().dom().contains("memory"@) ==> memory_in(Some(resources)) == 0,
        cpu_in(None) == 0,
        memory_in(None) == 0,
{
}

/// The figures of a node are its allocatable CPU and memory, then its CPU and memory
/// capacity; a node without a status has none.
pub proof fn law_figures_of_a_node(node: Node)
    ensures
        resources_of(node).len() == 4,
        node.status is None ==> forall|f: int|
            0 <= f < 4 ==> #[trigger] resources_of(node)[f] == 0,
        node.status matches Some(status) ==> {
            &&& resources_of(node)[0] == cpu_in(status.allocatable)
            &&& resources_of(node)[1] == memory_in(status.allocatable)
            &&& resources_of(node)[2] == cpu_in(status.capacity)
            &&& resources_of(node)[3] == memory_in(status.capacity)
        },
{
}

/// Counts and totals of two lists of nodes together are the sums of those of each; a
/// node counts once toward its own pool and its own region, with its own figures, and
/// toward no other.
pub proof fn law_nodes_add_up(
    a: Seq<Node>,
    b: Seq<Node>,
    node: Node,
    key: (Seq<char>, Seq<char>, Seq<char>),
    figure: int,
    region: Seq<char>,
)
    ensures
        pool_size(a + b, key) == pool_size(a, key) + pool_size(b, key),
        pool_total(a + b, key, figure) == pool_total(a, key, figure) + pool_total(b, key, figure),
        region_size(a + b, region) == region_size(a, region) + region_size(b, region),
        pool_size(Seq::empty(), key) == 0,
        pool_total(Seq::empty(), key, figure) == 0,
        region_size(Seq::empty(), region) == 0,
        pool_key(node) == key ==> pool_size(seq![node], key) == 1 && pool_total(
            seq![node],
            key,
            figure,
        ) == resources_of(node)[figure],
        pool_key(node) != key ==> pool_size(seq![node], key) == 0 && pool_total(
            seq![node],
            key,
            figure,
        ) == 0,
        region_of(node) == region ==> region_size(seq![node], region) == 1,
        region_of(node) != region ==> region_size(seq![node], region) == 0,
    decreases b.len(),
{
    assert(seq![node].drop_last() == Seq::<Node>::empty());
    reveal_with_fuel(pool_size, 2);
    reveal_with_fuel(pool_total, 2);
    reveal_with_fuel(region_size, 2);
    if b.len() == 0 {
        assert(a + b == a);
    } else {
        assert((a + b).drop_last() == a + b.drop_last());
        law_nodes_add_up(a, b.drop_last(), node, key, figure, region);
    }
}

proof fn lemma_total_bound(nodes: Seq<Node>, key: (Seq<char>, Seq<char>, Seq<char>), figure: int)
    ensures
        pool_total(nodes, key, figure) <= pool_size(nodes, key) * u32::MAX,
    decreases nodes.len(),
{
    if nodes.len() > 0 {
        lemma_total_bound(nodes.drop_last(), key, figure);
        let n = pool_size(nodes.drop_last(), key);
        assert((n + 1) * u32::MAX == n * u32::MAX + u32::MAX) by (nonlinear_arith);
    }
}

proof fn lemma_share(total: nat, count: nat, share: u32)
    requires
        count > 0,
        total <= count * u32::MAX,
        share == crate::nodes::per_node(total, count),
    ensures
        share * count <= total < (share + 1) * count,
{
    let q = total / count;
    vstd::arithmetic::div_mod::lemma_fundamental_div_mod(total as int, count as int);
    vstd::arithmetic::div_mod::lemma_mod_bound(total as int, count as int);
    assert(q <= u32::MAX) by (nonlinear_arith)
        requires
            q * count <= total,
            total <= count * u32::MAX,
            count > 0,
            q == total / count,
    ;
    assert(q * count <= total < (q + 1) * count) by (nonlinear_arith)
        requires
            total == count * q + total % count,
            0 <= total % count < count,
    ;
}

/// The figures of a pool describe one node: they are its totals over its nodes, divided
/// by their number and cut to a whole number. Its number is that of its nodes.
pub proof fn law_pool_figures_are_per_node(pools: Seq<NodePool>, nodes: Seq<Node>, i: int)
    requires
        pools_of(pools, nodes),
        0 <= i < pools.len(),
    ensures
        pools[i].node_count > 0,
        pools[i].node_count == pool_size(nodes, key_of(pools[i])),
        pools[i].cpu_allocatable_m * pools[i].node_count <= pool_total(nodes, key_of(pools[i]), 0)
            < (pools[i].cpu_allocatable_m + 1) * pools[i].node_count,
        pools[i].memory_allocatable_mi * pools[i].node_count <= pool_total(
            nodes,
            key_of(pools[i]),
            1,
        ) < (pools[i].memory_allocatable_mi + 1) * pools[i].node_count,
        pools[i].cpu_capacity_m * pools[i].node_count <= pool_total(nodes, key_of(pools[i]), 2) < (
        pools[i].cpu_capacity_m + 1) * pools[i].node_count,
        pools[i].memory_capacity_mi * pools[i].node_count <= pool_total(nodes, key_of(pools[i]), 3)
            < (pools[i].memory_capacity_mi + 1) * pools[i].node_count,
{
    let p = pools[i];
    let key = key_of(p);
    let n = pool_size(nodes, key);
    assert(crate::nodes::sums_up(p, nodes));
    lemma_total_bound(nodes, key, 0);
    lemma_total_bound(nodes, key, 1);
    lemma_total_bound(nodes, key, 2);
    lemma_total_bound(nodes, key, 3);
    lemma_share(pool_total(nodes, key, 0), n, p.cpu_allocatable_m);
    lemma_share(pool_total(nodes, key, 1), n, p.memory_allocatable_mi);
    lemma_share(pool_total(nodes, key, 2), n, p.cpu_capacity_m);
    lemma_share(pool_total(nodes, key, 3), n, p.memory_capacity_mi);
}

/// Every node has a pool of its own instance type, region and capacity type.
pub proof fn law_every_node_has_its_pool(pools: Seq<NodePool>, nodes: Seq<Node>, j: int)
    requires
        pools_of(pools, nodes),
        0 <= j < nodes.len(),
    ensures
        exists|i: int|
            0 <= i < pools.len() && (#[trigger] pools[i]).instance_type@ == instance_type_of(
                nodes[j],
            ) && pools[i].region@ == region_of(nodes[j]) && pools[i].capacity_type@
                == capacity_type(labels_of(nodes[j])),
{
    assert(crate::nodes::has_pool(pools, pool_key(nodes[j])));
    let i = choose|i: int|
        0 <= i < pools.len() && key_of(#[trigger] pools[i]) == pool_key(nodes[j]);
    assert(pools[i].instance_type@ == instance_type_of(nodes[j]));
}

/// Pools come in the order of instance types; those of one instance type in the order
/// of regions, and those of one region in the order of capacity types.
pub proof fn law_pools_come_in_order(pools: Seq<NodePool>, nodes: Seq<Node>, i: int, j: int)
    requires
        pools_of(pools, nodes),
        0 <= i < j < pools.len(),
    ensures
        pools[i].instance_type@ == pools[j].instance_type@ || precedes(
            pools[i].instance_type@,
            pools[j].instance_type@,
        ),
        pools[i].instance_type@ == pools[j].instance_type@ ==> pools[i].region@ == pools[j].region@
            || precedes(pools[i].region@, pools[j].region@),
        pools[i].instance_type@ == pools[j].instance_type@ && pools[i].region@ == pools[j].region@
            ==> precedes(pools[i].capacity_type@, pools[j].capacity_type@),
{
    assert(crate::nodes::key_before(key_of(pools[i]), key_of(pools[j])));
}

/// The primary region is that of at least as many nodes as any other, and the first in
/// the order of strings of equally common ones. It is unknown only where no node
/// reports a region.
pub proof fn law_primary_region_is_the_most_common(
    region: Seq<char>,
    nodes: Seq<Node>,
    other: Seq<char>,
    j: int,
)
    requires
        primary_region(region, nodes),
    ensures
        0 <= j < nodes.len() && region_of(nodes[j]).len() > 0 ==> region.len() > 0,
        region.len() > 0 ==> region_size(nodes, region) > 0,
        region.len() > 0 && other.len() > 0 ==> region_size(nodes, other) <= region_size(
            nodes,
            region,
        ),
        region.len() > 0 && other.len() > 0 && other != region && region_size(nodes, other)
            == region_size(nodes, region) ==> precedes(region, other),
{
    if forall|j: int| 0 <= j < nodes.len() ==> region_of(#[trigger] nodes[j]).len() == 0 {
    } else if other.len() > 0 && other != region {
        assert(region_size(nodes, other) < region_size(nodes, region) || (region_size(nodes, other)
            == region_size(nodes, region) && precedes(region, other)));
    }
}

} // verus!
