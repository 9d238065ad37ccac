//! What holds of autoscalers and the workloads that they scale.

use crate::autoscaler::{
    clamped_to_zero, contexts, count_or_zero, cpu_target, hpa_says, keda_says, last_hpa, last_keda,
    listed, low_bits, no_autoscaler, recorded_if_failed, trigger_names, HorizontalPodAutoscaler,
    HpaSpec, ResourceMetric,
};
use crate::json::Json;
use crate::text::{joined, same_ignoring_case};
use vstd::prelude::*;

verus! {

/// Counts are read as they are; a negative or missing one is read as zero.
pub proof fn law_counts_are_not_negative(n: i32)
    ensures
        n >= 0 ==> clamped_to_zero(n) == n,
        n < 0 ==> clamped_to_zero(n) == 0,
        n >= 0 ==> count_or_zero(Some(n)) == n,
        n < 0 ==> count_or_zero(Some(n)) == 0,
        count_or_zero(None) == 0,
{
}

/// A positive number that 32 bits hold is read as it is, one that is not positive as
/// zero; of a larger one what is above the low 32 bits is lost.
pub proof fn law_large_numbers_lose_their_high_bits(n: i64)
    ensures
        0 <= n <= u32::MAX ==> low_bits(n) == n,
        n <= 0 ==> low_bits(n) == 0,
        n > 0 ==> exists|high: int| low_bits(n) == n - #[trigger] (high * 0x1_0000_0000),
{
    if n > 0 {
        let high = n as int / 0x1_0000_0000;
        vstd::arithmetic::div_mod::lemma_fundamental_div_mod(n as int, 0x1_0000_0000);
        assert(low_bits(n) == n - high * 0x1_0000_0000);
    }
}

/// Whether a metric watches the CPU, however that is spelled.
pub open spec fn watches_cpu(metric: Option<ResourceMetric>) -> bool {
    metric matches Some(m) && same_ignoring_case(m.name@, "cpu"@)
}

/// The CPU target is that of the first metric that watches the CPU, and zero where none
/// does; other metrics play no part.
pub proof fn law_first_cpu_metric_is_the_target(metrics: Seq<Option<ResourceMetric>>, i: int)
    ensures
        0 <= i < metrics.len() && watches_cpu(metrics[i]) && (forall|j: int|
            0 <= j < i ==> !watches_cpu(#[trigger] metrics[j])) ==> cpu_target(metrics)
            == count_or_zero(metrics[i]->0.average_utilization),
        (forall|j: int| 0 <= j < metrics.len() ==> !watches_cpu(#[trigger] metrics[j]))
            ==> cpu_target(metrics) == 0,
    decreases metrics.len(),
{
    if metrics.len() > 0 && !watches_cpu(metrics[0]) {
        let rest = metrics.skip(1);
        law_first_cpu_metric_is_the_target(rest, i - 1);
        if forall|j: int| 0 <= j < metrics.len() ==> !watches_cpu(#[trigger] metrics[j]) {
            assert forall|j: int| 0 <= j < rest.len() implies !watches_cpu(#[trigger] rest[j]) by {
                assert(!watches_cpu(metrics[j + 1]));
            }
        }
        if 0 < i < metrics.len() && (forall|j: int|
            0 <= j < i ==> !watches_cpu(#[trigger] metrics[j])) {
            assert(rest[i - 1] == metrics[i]);
            assert forall|j: int| 0 <= j < i - 1 implies !watches_cpu(#[trigger] rest[j]) by {
                assert(!watches_cpu(metrics[j + 1]));
            }
        }
    }
}

/// An HPA speaks of the workload that it targets, and of none where it has no limits or
/// its target no name.
pub proof fn law_hpa_speaks_of_its_target(hpa: HorizontalPodAutoscaler, spec: HpaSpec)
    ensures
        hpa.spec is None ==> hpa_says(hpa) is None,
        hpa.spec == Some(spec) ==> (hpa_says(hpa) is Some <==> spec.target_name@.len() > 0),
        hpa.spec == Some(spec) ==> (hpa_says(hpa) matches Some(m) ==> {
            &&& m.kind == spec.target_kind@
            &&& m.name == spec.target_name@
            &&& m.min_replicas == count_or_zero(spec.min_replicas)
            &&& m.max_replicas == clamped_to_zero(spec.max_replicas)
            &&& m.target_cpu_pct == cpu_target(spec.metrics@)
            &&& m.current_replicas == count_or_zero(hpa.current_replicas)
        }),
{
}

/// Trigger names come in the order of the triggers; a trigger without a type has none.
pub proof fn law_trigger_names_come_in_order(a: Seq<Json>, b: Seq<Json>, trigger: Json)
    ensures
        trigger_names(a + b) == trigger_names(a) + trigger_names(b),
        trigger_names(Seq::empty()).len() == 0,
        trigger.member_text("type"@) is None ==> trigger_names(seq![trigger]).len() == 0,
        trigger.member_text("type"@) matches Some(name) ==> trigger_names(seq![trigger])
            == seq![name],
    decreases b.len(),
{
    assert(seq![trigger].drop_last() == Seq::<Json>::empty());
    reveal_with_fuel(trigger_names, 2);
    if b.len() == 0 {
        assert(a + b == a);
        assert(trigger_names(a) + trigger_names(b) == trigger_names(a));
    } else {
        assert((a + b).drop_last() == a + b.drop_last());
        law_trigger_names_come_in_order(a, b.drop_last(), trigger);
        assert(trigger_names(a + b) == trigger_names(a) + trigger_names(b));
    }
}

/// A ScaledObject speaks of the workload that `scaleTargetRef` names, which is a
/// Deployment unless it says otherwise, with its least replicas and its trigger types
/// separated by commas; it speaks of none where no name is there.
pub proof fn law_scaled_object_speaks_of_its_target(spec: Json, triggers: Seq<Json>)
    ensures
        keda_says(spec) is Some <==> spec.member_or_null("scaleTargetRef"@).member_text(
            "name"@,
        ) is Some,
        keda_says(spec) matches Some(m) ==> {
            let target = spec.member_or_null("scaleTargetRef"@);
            &&& target.member_text("name"@) == Some(m.name)
            &&& target.member_text("kind"@) matches Some(kind) ==> m.kind == kind
            &&& target.member_text("kind"@) is None ==> m.kind == "Deployment"@
            &&& spec.member_or_null("minReplicaCount"@).as_integer() matches Some(n)
                ==> m.min_replicas == low_bits(n)
            &&& spec.member_or_null("minReplicaCount"@).as_integer() is None ==> m.min_replicas
                == 0
            &&& spec.member_or_null("triggers"@).as_elements() == Some(triggers)
                ==> m.trigger_types == joined(trigger_names(triggers), seq![','])
            &&& spec.member_or_null("triggers"@).as_elements() is None ==> m.trigger_types.len()
                == 0
        },
{
    reveal_strlit(",");
    assert(","@ == seq![',']);
}

/// Whether an HPA targets the workload called `key.1` of type `key.0`.
pub open spec fn scaled_by_hpa(
    hpa: HorizontalPodAutoscaler,
    key: (Seq<char>, Seq<char>),
) -> bool {
    hpa.spec matches Some(spec) && spec.target_name@.len() > 0 && spec.target_kind@ == key.0
        && spec.target_name@ == key.1
}

/// Whether a ScaledObject targets the workload called `key.1` of type `key.0`.
pub open spec fn scaled_by_object(object: Json, key: (Seq<char>, Seq<char>)) -> bool {
    let target = object.member_or_null("spec"@).member_or_null("scaleTargetRef"@);
    &&& target.member_text("name"@) == Some(key.1)
    &&& match target.member_text("kind"@) {
        Some(kind) => kind == key.0,
        None => key.0 == "Deployment"@,
    }
}

proof fn lemma_last_hpa(hpas: Seq<HorizontalPodAutoscaler>, key: (Seq<char>, Seq<char>), i: int)
    ensures
        0 <= i < hpas.len() && scaled_by_hpa(hpas[i], key) && (forall|j: int|
            i < j < hpas.len() ==> !scaled_by_hpa(#[trigger] hpas[j], key)) ==> last_hpa(hpas, key)
            == hpa_says(hpas[i]),
        (forall|j: int| 0 <= j < hpas.len() ==> !scaled_by_hpa(#[trigger] hpas[j], key)) <==> (
        last_hpa(hpas, key) is None),
    decreases hpas.len(),
{
    if hpas.len() > 0 {
        let init = hpas.drop_last();
        let last = hpas.len() - 1;
        lemma_last_hpa(init, key, i);
        assert forall|j: int| 0 <= j < init.len() implies init[j] == #[trigger] hpas[j] by {}
        assert(scaled_by_hpa(hpas[last], key) <==> (hpa_says(hpas[last]) matches Some(m) && (
            m.kind,
            m.name,
        ) == key));
        if !scaled_by_hpa(hpas[last], key) {
            if forall|j: int| 0 <= j < init.len() ==> !scaled_by_hpa(#[trigger] init[j], key) {
                assert forall|j: int| 0 <= j < hpas.len() implies !scaled_by_hpa(
                    #[trigger] hpas[j],
                    key,
                ) by {
                    if j < last {
                        assert(!scaled_by_hpa(init[j], key));
                    }
                }
            } else {
                let j = choose|j: int|
                    0 <= j < init.len() && scaled_by_hpa(#[trigger] init[j], key);
                assert(scaled_by_hpa(hpas[j], key));
            }
        }
        if 0 <= i < last && (forall|j: int|
            i < j < hpas.len() ==> !scaled_by_hpa(#[trigger] hpas[j], key)) {
            assert(!scaled_by_hpa(hpas[last], key));
            assert(init[i] == hpas[i]);
            assert forall|j: int| i < j < init.len() implies !scaled_by_hpa(
                #[trigger] init[j],
                key,
            ) by {
                assert(!scaled_by_hpa(hpas[j], key));
            }
        }
    }
}

proof fn lemma_last_keda(objects: Seq<Json>, key: (Seq<char>, Seq<char>), i: int)
    ensures
        0 <= i < objects.len() && scaled_by_object(objects[i], key) && (forall|j: int|
            i < j < objects.len() ==> !scaled_by_object(#[trigger] objects[j], key)) ==> last_keda(
            objects,
            key,
        ) == keda_says(objects[i].member_or_null("spec"@)),
        (forall|j: int| 0 <= j < objects.len() ==> !scaled_by_object(#[trigger] objects[j], key))
            <==> (last_keda(objects, key) is None),
    decreases objects.len(),
{
    if objects.len() > 0 {
        let init = objects.drop_last();
        let last = objects.len() - 1;
        lemma_last_keda(init, key, i);
        assert forall|j: int| 0 <= j < init.len() implies init[j] == #[trigger] objects[j] by {}
        assert(scaled_by_object(objects[last], key) <==> (keda_says(
            objects[last].member_or_null("spec"@),
        ) matches Some(m) && (m.kind, m.name) == key));
        if !scaled_by_object(objects[last], key) {
            if forall|j: int|
                0 <= j < init.len() ==> !scaled_by_object(#[trigger] init[j], key) {
                assert forall|j: int| 0 <= j < objects.len() implies !scaled_by_object(
                    #[trigger] objects[j],
                    key,
                ) by {
                    if j < last {
                        assert(!scaled_by_object(init[j], key));
                    }
                }
            } else {
                let j = choose|j: int|
                    0 <= j < init.len() && scaled_by_object(#[trigger] init[j], key);
                assert(scaled_by_object(objects[j], key));
            }
        }
        if 0 <= i < last && (forall|j: int|
            i < j < objects.len() ==> !scaled_by_object(#[trigger] objects[j], key)) {
            assert(!scaled_by_object(objects[last], key));
            assert(init[i] == objects[i]);
            assert forall|j: int| i < j < init.len() implies !scaled_by_object(
                #[trigger] init[j],
                key,
            ) by {
                assert(!scaled_by_object(objects[j], key));
            }
        }
    }
}

/// A workload has an autoscaler context exactly where an HPA or a ScaledObject targets
/// it; the context says which of them do.
pub proof fn law_context_is_there_for_what_is_scaled(
    hpas: Seq<HorizontalPodAutoscaler>,
    objects: Seq<Json>,
    key: (Seq<char>, Seq<char>),
)
    ensures
        contexts(hpas, objects).dom().contains(key) <==> (exists|j: int|
            0 <= j < hpas.len() && scaled_by_hpa(#[trigger] hpas[j], key)) || (exists|j: int|
            0 <= j < objects.len() && scaled_by_object(#[trigger] objects[j], key)),
        contexts(hpas, objects).dom().contains(key) ==> {
            let context = contexts(hpas, objects)[key];
            &&& context.has_hpa <==> exists|j: int|
                0 <= j < hpas.len() && scaled_by_hpa(#[trigger] hpas[j], key)
            &&& context.keda_scaled <==> exists|j: int|
                0 <= j < objects.len() && scaled_by_object(#[trigger] objects[j], key)
        },
{
    lemma_last_hpa(hpas, key, 0);
    lemma_last_keda(objects, key, 0);
}

/// Of several HPAs of one target the last counts; without one the fields are zero.
pub proof fn law_last_hpa_of_a_target_counts(
    hpas: Seq<HorizontalPodAutoscaler>,
    objects: Seq<Json>,
    key: (Seq<char>, Seq<char>),
    i: int,
)
    ensures
        0 <= i < hpas.len() && scaled_by_hpa(hpas[i], key) && (forall|j: int|
            i < j < hpas.len() ==> !scaled_by_hpa(#[trigger] hpas[j], key)) ==> {
            let context = contexts(hpas, objects)[key];
            &&& contexts(hpas, objects).dom().contains(key)
            &&& hpas[i].spec matches Some(spec) && {
                &&& context.hpa_min_replicas == count_or_zero(spec.min_replicas)
                &&& context.hpa_max_replicas == clamped_to_zero(spec.max_replicas)
                &&& context.hpa_target_cpu_pct == cpu_target(spec.metrics@)
                &&& context.hpa_current_replicas == count_or_zero(hpas[i].current_replicas)
            }
        },
        (forall|j: int| 0 <= j < hpas.len() ==> !scaled_by_hpa(#[trigger] hpas[j], key))
            && contexts(hpas, objects).dom().contains(key) ==> {
            let context = contexts(hpas, objects)[key];
            &&& !context.has_hpa
            &&& context.hpa_min_replicas == 0
            &&& context.hpa_max_replicas == 0
            &&& context.hpa_target_cpu_pct == 0
            &&& context.hpa_current_replicas == 0
        },
{
    lemma_last_hpa(hpas, key, i);
}

/// Of several ScaledObjects of one target the last counts; without one the fields are
/// zero.
pub proof fn law_last_scaled_object_of_a_target_counts(
    hpas: Seq<HorizontalPodAutoscaler>,
    objects: Seq<Json>,
    key: (Seq<char>, Seq<char>),
    i: int,
)
    ensures
        0 <= i < objects.len() && scaled_by_object(objects[i], key) && (forall|j: int|
            i < j < objects.len() ==> !scaled_by_object(#[trigger] objects[j], key)) ==> {
            let context = contexts(hpas, objects)[key];
            &&& contexts(hpas, objects).dom().contains(key)
            &&& keda_says(objects[i].member_or_null("spec"@)) matches Some(m)
                && context.keda_min_replicas == m.min_replicas && context.keda_trigger_types
                == m.trigger_types
        },
        (forall|j: int| 0 <= j < objects.len() ==> !scaled_by_object(#[trigger] objects[j], key))
            && contexts(hpas, objects).dom().contains(key) ==> {
            let context = contexts(hpas, objects)[key];
            &&& !context.keda_scaled
            &&& context.keda_min_replicas == 0
            &&& context.keda_trigger_types.len() == 0
        },
{
    lemma_last_keda(objects, key, i);
}

/// A workload that nothing scales has a context that says so, with all numbers zero.
pub proof fn law_no_autoscaler_scales_nothing()
    ensures
        !no_autoscaler().has_hpa,
        no_autoscaler().hpa_min_replicas == 0,
        no_autoscaler().hpa_max_replicas == 0,
        no_autoscaler().hpa_target_cpu_pct == 0,
        no_autoscaler().hpa_current_replicas == 0,
        !no_autoscaler().keda_scaled,
        no_autoscaler().keda_min_replicas == 0,
        no_autoscaler().keda_trigger_types.len() == 0,
{
}

/// A list call that failed lists nothing and is recorded; one that succeeded lists all
/// that it returned and leaves the record as it is.
pub proof fn law_failed_lists_are_empty_and_recorded<T>(
    items: Vec<T>,
    recorded: Set<Seq<char>>,
    subsystem: Seq<char>,
)
    ensures
        listed(Some(items)) == items@,
        listed::<T>(None).len() == 0,
        recorded_if_failed(recorded, Some(items), subsystem) == recorded,
        recorded_if_failed::<T>(recorded, None, subsystem).contains(subsystem),
        forall|s: Seq<char>|
            s != subsystem ==> (#[trigger] recorded_if_failed::<T>(
                recorded,
                None,
                subsystem,
            ).contains(s) <==> recorded.contains(s)),
{
}

} // verus!
