//! Autoscaler context: what HorizontalPodAutoscalers and KEDA ScaledObjects say of
//! the workloads that they scale.

use crate::degradations::Degradations;
use crate::json::Json;
use crate::table::Table;
use crate::text::{join, joined, same_ignoring_case, same_text_ignoring_case, views};
use vstd::prelude::*;

verus! {

/// The resource that a metric of an autoscaler watches.
pub struct ResourceMetric {
    pub name: String,
    pub average_utilization: Option<i32>,
}

/// The limits of a HorizontalPodAutoscaler. A metric that watches no resource is `None`.
pub struct HpaSpec {
    pub target_kind: String,
    pub target_name: String,
    pub min_replicas: Option<i32>,
    pub max_replicas: i32,
    pub metrics: Vec<Option<ResourceMetric>>,
}

/// A HorizontalPodAutoscaler.
pub struct HorizontalPodAutoscaler {
    pub spec: Option<HpaSpec>,
    pub current_replicas: Option<i32>,
}

/// The HPA fields that the wire schema carries, and the target that the HPA scales.
pub struct HpaFields {
    pub kind: String,
    pub name: String,
    pub min_replicas: u32,
    pub max_replicas: u32,
    pub target_cpu_pct: u32,
    pub current_replicas: u32,
}

/// [`HpaFields`] as a mathematical value.
pub struct HpaModel {
    pub kind: Seq<char>,
    pub name: Seq<char>,
    pub min_replicas: u32,
    pub max_replicas: u32,
    pub target_cpu_pct: u32,
    pub current_replicas: u32,
}

/// The KEDA fields that the wire schema carries, and the target that KEDA scales.
pub struct KedaFields {
    pub kind: String,
    pub name: String,
    pub min_replicas: u32,
    pub trigger_types: String,
}

/// [`KedaFields`] as a mathematical value.
pub struct KedaModel {
    pub kind: Seq<char>,
    pub name: Seq<char>,
    pub min_replicas: u32,
    pub trigger_types: Seq<char>,
}

/// Autoscaler context for one workload. The default says that no autoscaler is there.
pub struct AutoscalerContext {
    pub has_hpa: bool,
    pub hpa_min_replicas: u32,
    pub hpa_max_replicas: u32,
    pub hpa_target_cpu_pct: u32,
    pub hpa_current_replicas: u32,
    pub keda_scaled: bool,
    pub keda_min_replicas: u32,
    pub keda_trigger_types: String,
}

/// [`AutoscalerContext`] as a mathematical value.
pub struct AutoscalerModel {
    pub has_hpa: bool,
    pub hpa_min_replicas: u32,
    pub hpa_max_replicas: u32,
    pub hpa_target_cpu_pct: u32,
    pub hpa_current_replicas: u32,
    pub keda_scaled: bool,
    pub keda_min_replicas: u32,
    pub keda_trigger_types: Seq<char>,
}

/// Contexts by the kind and the name of the workload, within one namespace.
pub type AutoscalerMap = Table<(String, String), AutoscalerContext>;

impl DeepView for HpaFields {
    type V = HpaModel;

    open spec fn deep_view(&self) -> HpaModel {
        HpaModel {
            kind: self.kind@,
            name: self.name@,
            min_replicas: self.min_replicas,
            max_replicas: self.max_replicas,
            target_cpu_pct: self.target_cpu_pct,
            current_replicas: self.current_replicas,
        }
    }
}

impl DeepView for KedaFields {
    type V = KedaModel;

    open spec fn deep_view(&self) -> KedaModel {
        KedaModel {
            kind: self.kind@,
            name: self.name@,
            min_replicas: self.min_replicas,
            trigger_types: self.trigger_types@,
        }
    }
}

impl DeepView for AutoscalerContext {
    type V = AutoscalerModel;

    open spec fn deep_view(&self) -> AutoscalerModel {
        AutoscalerModel {
            has_hpa: self.has_hpa,
            hpa_min_replicas: self.hpa_min_replicas,
            hpa_max_replicas: self.hpa_max_replicas,
            hpa_target_cpu_pct: self.hpa_target_cpu_pct,
            hpa_current_replicas: self.hpa_current_replicas,
            keda_scaled: self.keda_scaled,
            keda_min_replicas: self.keda_min_replicas,
            keda_trigger_types: self.keda_trigger_types@,
        }
    }
}

/// The context of a workload that no autoscaler scales.
pub open spec fn no_autoscaler() -> AutoscalerModel {
    AutoscalerModel {
        has_hpa: false,
        hpa_min_replicas: 0,
        hpa_max_replicas: 0,
        hpa_target_cpu_pct: 0,
        hpa_current_replicas: 0,
        keda_scaled: false,
        keda_min_replicas: 0,
        keda_trigger_types: Seq::empty(),
    }
}

impl Default for AutoscalerContext {
    fn default() -> (r: Self)
        ensures
            r.deep_view() == no_autoscaler(),
    {
        let r = AutoscalerContext {
            has_hpa: false,
            hpa_min_replicas: 0,
            hpa_max_replicas: 0,
            hpa_target_cpu_pct: 0,
            hpa_current_replicas: 0,
            keda_scaled: false,
            keda_min_replicas: 0,
            keda_trigger_types: String::new(),
        };
        assert(r.keda_trigger_types@ == Seq::<char>::empty());
        r
    }
}

/// `v`, or zero where it is negative.
pub open spec fn clamped_to_zero(v: i32) -> u32 {
    if v < 0 {
        0
    } else {
        v as u32
    }
}

/// The number in `v`, zero where there is none or it is negative.
pub open spec fn count_or_zero(v: Option<i32>) -> u32 {
    match v {
        Some(n) => clamped_to_zero(n),
        None => 0,
    }
}

/// The target of the first metric that watches the CPU, in percent; zero where no
/// metric does, or where it gives no percentage.
pub open spec fn cpu_target(metrics: Seq<Option<ResourceMetric>>) -> u32
    decreases metrics.len(),
{
    if metrics.len() == 0 {
        0
    } else {
        match metrics[0] {
            Some(m) if same_ignoring_case(m.name@, "cpu"@) => count_or_zero(m.average_utilization),
            _ => cpu_target(metrics.skip(1)),
        }
    }
}

/// What an HPA says of its target. `None` if it names no target.
pub open spec fn hpa_says(hpa: HorizontalPodAutoscaler) -> Option<HpaModel> {
    match hpa.spec {
        None => None,
        Some(spec) => if spec.target_name@.len() == 0 {
            None
        } else {
            Some(
                HpaModel {
                    kind: spec.target_kind@,
                    name: spec.target_name@,
                    min_replicas: count_or_zero(spec.min_replicas),
                    max_replicas: clamped_to_zero(spec.max_replicas),
                    target_cpu_pct: cpu_target(spec.metrics@),
                    current_replicas: count_or_zero(hpa.current_replicas),
                },
            )
        },
    }
}

/// The texts under `type` of the triggers that have one.
pub open spec fn trigger_names(triggers: Seq<Json>) -> Seq<Seq<char>>
    decreases triggers.len(),
{
    if triggers.len() == 0 {
        Seq::empty()
    } else {
        let names = trigger_names(triggers.drop_last());
        match triggers.last().member_text("type"@) {
            Some(name) => names.push(name),
            None => names,
        }
    }
}

/// The low 32 bits of a positive number; zero of any other.
pub open spec fn low_bits(n: i64) -> u32 {
    if n > 0 {
        (n as int % 0x1_0000_0000) as u32
    } else {
        0
    }
}

/// What the `spec` of a ScaledObject says of its target. `None` if it names no target.
pub open spec fn keda_says(spec: Json) -> Option<KedaModel> {
    let target = spec.member_or_null("scaleTargetRef"@);
    match target.member_text("name"@) {
        None => None,
        Some(name) => Some(
            KedaModel {
                kind: match target.member_text("kind"@) {
                    Some(kind) => kind,
                    None => "Deployment"@,
                },
                name,
                min_replicas: match spec.member_or_null("minReplicaCount"@).as_integer() {
                    Some(n) => low_bits(n),
                    None => 0,
                },
                trigger_types: joined(
                    trigger_names(
                        match spec.member_or_null("triggers"@).as_elements() {
                            Some(triggers) => triggers,
                            None => Seq::empty(),
                        },
                    ),
                    ","@,
                ),
            },
        ),
    }
}

/// What the last HPA that scales the workload `key` says.
pub open spec fn last_hpa(
    hpas: Seq<HorizontalPodAutoscaler>,
    key: (Seq<char>, Seq<char>),
) -> Option<HpaModel>
    decreases hpas.len(),
{
    if hpas.len() == 0 {
        None
    } else {
        match hpa_says(hpas.last()) {
            Some(m) if (m.kind, m.name) == key => Some(m),
            _ => last_hpa(hpas.drop_last(), key),
        }
    }
}

/// What the last ScaledObject that scales the workload `key` says.
pub open spec fn last_keda(objects: Seq<Json>, key: (Seq<char>, Seq<char>)) -> Option<KedaModel>
    decreases objects.len(),
{
    if objects.len() == 0 {
        None
    } else {
        match keda_says(objects.last().member_or_null("spec"@)) {
            Some(m) if (m.kind, m.name) == key => Some(m),
            _ => last_keda(objects.drop_last(), key),
        }
    }
}

/// The context that an HPA and a ScaledObject make up together.
pub open spec fn context(hpa: Option<HpaModel>, keda: Option<KedaModel>) -> AutoscalerModel {
    AutoscalerModel {
        has_hpa: hpa is Some,
        hpa_min_replicas: match hpa {
            Some(m) => m.min_replicas,
            None => 0,
        },
        hpa_max_replicas: match hpa {
            Some(m) => m.max_replicas,
            None => 0,
        },
        hpa_target_cpu_pct: match hpa {
            Some(m) => m.target_cpu_pct,
            None => 0,
        },
        hpa_current_replicas: match hpa {
            Some(m) => m.current_replicas,
            None => 0,
        },
        keda_scaled: keda is Some,
        keda_min_replicas: match keda {
            Some(m) => m.min_replicas,
            None => 0,
        },
        keda_trigger_types: match keda {
            Some(m) => m.trigger_types,
            None => Seq::empty(),
        },
    }
}

/// The context of every workload that an HPA or a ScaledObject scales.
pub open spec fn contexts(
    hpas: Seq<HorizontalPodAutoscaler>,
    objects: Seq<Json>,
) -> Map<(Seq<char>, Seq<char>), AutoscalerModel> {
    Map::new(
        |key: (Seq<char>, Seq<char>)| last_hpa(hpas, key) is Some || last_keda(objects, key) is Some,
        |key: (Seq<char>, Seq<char>)| context(last_hpa(hpas, key), last_keda(objects, key)),
    )
}

/// What a list call returned; nothing where it failed.
pub open spec fn listed<T>(list: Option<Vec<T>>) -> Seq<T> {
    match list {
        Some(items) => items@,
        None => Seq::empty(),
    }
}

/// `recorded`, with `subsystem` if the list call failed.
pub open spec fn recorded_if_failed<T>(
    recorded: Set<Seq<char>>,
    list: Option<Vec<T>>,
    subsystem: Seq<char>,
) -> Set<Seq<char>> {
    match list {
        Some(items) => recorded,
        None => recorded.insert(subsystem),
    }
}

/// `v`, or zero where it is negative.
pub fn to_u32(v: i32) -> (r: u32)
    ensures
        r == clamped_to_zero(v),
{
    if v < 0 {
        0
    } else {
        v as u32
    }
}

fn count_of(v: Option<i32>) -> (r: u32)
    ensures
        r == count_or_zero(v),
{
    match v {
        Some(n) => to_u32(n),
        None => 0,
    }
}

fn cpu_target_of(metrics: &Vec<Option<ResourceMetric>>) -> (r: u32)
    ensures
        r == cpu_target(metrics@),
{
    let mut i: usize = 0;
    assert(metrics@.skip(0) == metrics@);
    while i < metrics.len()
        invariant
            i <= metrics.len(),
            cpu_target(metrics@) == cpu_target(metrics@.skip(i as int)),
        decreases metrics.len() - i,
    {
        assert(metrics@.skip(i as int).skip(1) == metrics@.skip(i + 1));
        match &metrics[i] {
            Some(m) => {
                if same_text_ignoring_case(m.name.as_str(), "cpu") {
                    return count_of(m.average_utilization);
                }
            },
            None => {},
        }
        i += 1;
    }
    0
}

/// Extracts an HPA's scale target and limits. `None` if it names no target.
pub fn hpa_fields(hpa: &HorizontalPodAutoscaler) -> (r: Option<HpaFields>)
    ensures
        r.deep_view() == hpa_says(*hpa),
{
    match &hpa.spec {
        None => None,
        Some(spec) => {
            if spec.target_name.as_str().is_empty() {
                return None;
            }
            Some(
                HpaFields {
                    kind: spec.target_kind.clone(),
                    name: spec.target_name.clone(),
                    min_replicas: count_of(spec.min_replicas),
                    max_replicas: to_u32(spec.max_replicas),
                    target_cpu_pct: cpu_target_of(&spec.metrics),
                    current_replicas: count_of(hpa.current_replicas),
                },
            )
        },
    }
}

fn trigger_names_of(triggers: &Vec<Json>) -> (r: Vec<String>)
    ensures
        views(r@) == trigger_names(triggers@),
{
    let mut names: Vec<String> = Vec::new();
    let mut i: usize = 0;
    assert(views(names@) == Seq::<Seq<char>>::empty());
    while i < triggers.len()
        invariant
            i <= triggers.len(),
            views(names@) == trigger_names(triggers@.take(i as int)),
        decreases triggers.len() - i,
    {
        assert(triggers@.take(i + 1).drop_last() == triggers@.take(i as int));
        let ghost before = views(names@);
        match triggers[i].at("type").as_str() {
            Some(name) => {
                names.push(name.clone());
                assert(views(names@) == before.push(name@));
            },
            None => {},
        }
        i += 1;
    }
    assert(triggers@.take(triggers@.len() as int) == triggers@);
    names
}

/// Extracts a ScaledObject's target and floor from its `spec`. `None` if it names
/// no target. The kind of the target is `Deployment` where it is left out.
pub fn keda_fields(spec: &Json) -> (r: Option<KedaFields>)
    ensures
        r.deep_view() == keda_says(*spec),
{
    let target = spec.at("scaleTargetRef");
    let name: String = match target.at("name").as_str() {
        Some(name) => name.clone(),
        None => {
            return None;
        },
    };
    let kind: String = match target.at("kind").as_str() {
        Some(kind) => kind.clone(),
        None => "Deployment".to_owned(),
    };
    let names: Vec<String> = match spec.at("triggers").as_array() {
        Some(triggers) => trigger_names_of(triggers),
        None => Vec::new(),
    };
    proof {
        assert(names@.len() == 0 ==> views(names@) == Seq::<Seq<char>>::empty());
    }
    let min_replicas: u32 = match spec.at("minReplicaCount").as_i64() {
        Some(n) => if n > 0 {
            (n as u64 % 0x1_0000_0000) as u32
        } else {
            0
        },
        None => 0,
    };
    Some(KedaFields { kind, name, min_replicas, trigger_types: join(&names, ",") })
}

/// Builds the autoscaler contexts of a namespace from its HPAs and its ScaledObjects.
///
/// Both lists are optional: a failed list of HPAs is recorded; the absence of KEDA
/// is no failure. A workload that KEDA scales also carries an HPA of the operator,
/// so it may report both.
pub fn autoscaler_map(
    hpas: &Option<Vec<HorizontalPodAutoscaler>>,
    scaled_objects: &Option<Vec<Json>>,
    degraded: &mut Degradations,
) -> (r: AutoscalerMap)
    ensures
        r.deep_view() == contexts(listed(*hpas), listed(*scaled_objects)),
        final(degraded)@ == recorded_if_failed(
            old(degraded)@,
            *hpas,
            "horizontalpodautoscalers"@,
        ),
{
    let mut map: AutoscalerMap = Table::new();
    let ghost none = Seq::<Json>::empty();
    assert(map.deep_view() == contexts(Seq::empty(), none));
    match hpas {
        Some(items) => {
            let mut i: usize = 0;
            assert(items@.take(0) == Seq::<HorizontalPodAutoscaler>::empty());
            while i < items.len()
                invariant
                    i <= items.len(),
                    none == Seq::<Json>::empty(),
                    map.deep_view() == contexts(items@.take(i as int), none),
                decreases items.len() - i,
            {
                let ghost before = items@.take(i as int);
                let ghost after = items@.take(i + 1);
                assert(after.drop_last() == before);
                match hpa_fields(&items[i]) {
                    Some(f) => {
                        let key = (f.kind, f.name);
                        let mut entry = match map.take(&key) {
                            Some(entry) => entry,
                            None => AutoscalerContext::default(),
                        };
                        entry.has_hpa = true;
                        entry.hpa_min_replicas = f.min_replicas;
                        entry.hpa_max_replicas = f.max_replicas;
                        entry.hpa_target_cpu_pct = f.target_cpu_pct;
                        entry.hpa_current_replicas = f.current_replicas;
                        map.insert(key, entry);
                        assert(map.deep_view() =~= contexts(after, none));
                    },
                    None => {
                        assert(map.deep_view() =~= contexts(after, none));
                    },
                }
                i += 1;
            }
            assert(items@.take(items@.len() as int) == items@);
        },
        None => {
            degraded.record("horizontalpodautoscalers");
        },
    }
    let ghost scaling = listed(*hpas);
    match scaled_objects {
        Some(items) => {
            let mut i: usize = 0;
            assert(items@.take(0) == none);
            while i < items.len()
                invariant
                    i <= items.len(),
                    map.deep_view() == contexts(scaling, items@.take(i as int)),
                decreases items.len() - i,
            {
                let ghost before = items@.take(i as int);
                let ghost after = items@.take(i + 1);
                assert(after.drop_last() == before);
                match keda_fields(items[i].at("spec")) {
                    Some(f) => {
                        let key = (f.kind, f.name);
                        let mut entry = match map.take(&key) {
                            Some(entry) => entry,
                            None => AutoscalerContext::default(),
                        };
                        entry.keda_scaled = true;
                        entry.keda_min_replicas = f.min_replicas;
                        entry.keda_trigger_types = f.trigger_types;
                        map.insert(key, entry);
                        assert(map.deep_view() =~= contexts(scaling, after));
                    },
                    None => {
                        assert(map.deep_view() =~= contexts(scaling, after));
                    },
                }
                i += 1;
            }
            assert(items@.take(items@.len() as int) == items@);
        },
        None => {},
    }
    map
}

} // verus!
