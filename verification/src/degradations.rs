//! The subsystems whose data a collection pass failed to fetch.

use crate::text::{
    lemma_precedes_irreflexive, lemma_precedes_total, lemma_precedes_transitive, precedes,
    text_before, views,
};
use vstd::prelude::*;

verus! {

/// Subsystems whose data this pass failed to fetch.
///
/// A list call that fails does not end the pass, but absence of data must not read
/// as a measurement of nothing: recording the subsystem is what separates the two.
/// Each subsystem is held once, in the order of strings, so that two passes that
/// failed in the same way give the same list.
pub struct Degradations {
    subsystems: Vec<String>,
}

/// Whether each text of `s` comes before those after it.
pub open spec fn strictly_sorted(s: Seq<Seq<char>>) -> bool {
    forall|i: int, j: int| 0 <= i < j < s.len() ==> precedes(#[trigger] s[i], #[trigger] s[j])
}

impl View for Degradations {
    type V = Set<Seq<char>>;

    closed spec fn view(&self) -> Set<Seq<char>> {
        views(self.subsystems@).to_set()
    }
}

impl Default for Degradations {
    fn default() -> (r: Self)
        ensures
            r@ == Set::<Seq<char>>::empty(),
    {
        let r = Degradations { subsystems: Vec::new() };
        assert(r@ =~= Set::<Seq<char>>::empty());
        r
    }
}

impl Degradations {
    #[verifier::type_invariant]
    spec fn sorted(self) -> bool {
        strictly_sorted(views(self.subsystems@))
    }

    /// Records that `subsystem` could not be read.
    pub fn record(&mut self, subsystem: &str)
        ensures
            final(self)@ == old(self)@.insert(subsystem@),
    {
        proof {
            use_type_invariant(&*self);
        }
        let ghost before = views(self.subsystems@);
        let mut i: usize = 0;
        while i < self.subsystems.len() && text_before(self.subsystems[i].as_str(), subsystem)
            invariant
                i <= self.subsystems.len(),
                before == views(self.subsystems@),
                forall|k: int| 0 <= k < i ==> precedes(#[trigger] before[k], subsystem@),
            decreases self.subsystems.len() - i,
        {
            assert(before[i as int] == self.subsystems@[i as int]@);
            i += 1;
        }
        if i < self.subsystems.len() && !text_before(subsystem, self.subsystems[i].as_str()) {
            proof {
                lemma_precedes_total(before[i as int], subsystem@);
                assert(before[i as int] == subsystem@);
                assert(self@.contains(subsystem@));
                assert(self@.insert(subsystem@) =~= self@);
            }
            return;
        }
        let mut subsystems: Vec<String> = Vec::new();
        std::mem::swap(&mut subsystems, &mut self.subsystems);
        subsystems.insert(i, subsystem.to_owned());
        proof {
            let after = views(subsystems@);
            assert(after == before.insert(i as int, subsystem@));
            assert forall|a: int, b: int| 0 <= a < b < after.len() implies precedes(
                #[trigger] after[a],
                #[trigger] after[b],
            ) by {
                if a == i {
                    if b - 1 > i {
                        lemma_precedes_transitive(after[a], before[i as int], before[b - 1]);
                    }
                } else if b != i {
                    let a2 = if a < i { a } else { a - 1 };
                    let b2 = if b < i { b } else { b - 1 };
                    assert(precedes(before[a2], before[b2]));
                }
            }
            assert forall|t: Seq<char>| after.to_set().contains(t) == before.to_set().insert(
                subsystem@,
            ).contains(t) by {
                if after.contains(t) {
                    let k = choose|k: int| 0 <= k < after.len() && after[k] == t;
                    if k < i {
                        assert(before[k] == t);
                    } else if k > i {
                        assert(before[k - 1] == t);
                    }
                }
                if before.contains(t) {
                    let k = choose|k: int| 0 <= k < before.len() && before[k] == t;
                    if k < i {
                        assert(after[k] == t);
                    } else {
                        assert(after[k + 1] == t);
                    }
                }
                assert(after[i as int] == subsystem@);
            }
            assert(after.to_set() =~= before.to_set().insert(subsystem@));
        }
        self.subsystems = subsystems;
    }

    /// The recorded subsystems, each once, in the order of strings.
    pub fn into_vec(self) -> (r: Vec<String>)
        ensures
            strictly_sorted(views(r@)),
            views(r@).to_set() == self@,
    {
        proof {
            use_type_invariant(&self);
        }
        self.subsystems
    }
}

/// What a pass reports as degraded depends on which subsystems failed alone, not on
/// how often or in what order: two sorted lists of the same subsystems are equal.
pub proof fn law_degradations_are_canonical(a: Seq<Seq<char>>, b: Seq<Seq<char>>)
    requires
        strictly_sorted(a),
        strictly_sorted(b),
        a.to_set() == b.to_set(),
    ensures
        a == b,
    decreases a.len(),
{
    if a.len() == 0 {
        if b.len() > 0 {
            assert(b.to_set().contains(b[0]));
            assert(a.contains(b[0]));
        }
        assert(a =~= b);
    } else {
        assert(a.to_set().contains(a.last()));
        assert(b.to_set().contains(a.last()));
        assert(b.len() > 0);
        assert(b.to_set().contains(b.last()));
        assert(a.contains(b.last()));
        let i = choose|i: int| 0 <= i < a.len() && a[i] == b.last();
        let j = choose|j: int| 0 <= j < b.len() && b[j] == a.last();
        if a.last() != b.last() {
            assert(precedes(a[i], a[a.len() - 1]));
            assert(precedes(b[j], b[b.len() - 1]));
            lemma_precedes_transitive(a.last(), b.last(), a.last());
            lemma_precedes_irreflexive(a.last());
        }
        let p = a.drop_last();
        let q = b.drop_last();
        lemma_without_last(a, b);
        lemma_without_last(b, a);
        assert(p.to_set() =~= q.to_set());
        assert forall|x: int, y: int| 0 <= x < y < p.len() implies precedes(
            #[trigger] p[x],
            #[trigger] p[y],
        ) by {
            assert(precedes(a[x], a[y]));
        }
        assert forall|x: int, y: int| 0 <= x < y < q.len() implies precedes(
            #[trigger] q[x],
            #[trigger] q[y],
        ) by {
            assert(precedes(b[x], b[y]));
        }
        law_degradations_are_canonical(p, q);
        assert(a =~= p.push(a.last()));
        assert(b =~= q.push(b.last()));
    }
}

proof fn lemma_without_last(a: Seq<Seq<char>>, b: Seq<Seq<char>>)
    requires
        strictly_sorted(a),
        strictly_sorted(b),
        a.to_set() == b.to_set(),
        a.len() > 0,
        b.len() > 0,
        a.last() == b.last(),
    ensures
        forall|t: Seq<char>| a.drop_last().contains(t) ==> #[trigger] b.drop_last().contains(t),
{
    assert forall|t: Seq<char>| a.drop_last().contains(t) implies #[trigger] b.drop_last().contains(
        t,
    ) by {
        let k = choose|k: int| 0 <= k < a.drop_last().len() && a.drop_last()[k] == t;
        assert(a[k] == t);
        assert(precedes(a[k], a[a.len() - 1]));
        lemma_precedes_irreflexive(t);
        assert(a.to_set().contains(t));
        assert(b.contains(t));
        let m = choose|m: int| 0 <= m < b.len() && b[m] == t;
        assert(b.drop_last()[m] == t);
    }
}

} // verus!
