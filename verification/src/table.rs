//! A map from text keys to values that keeps the order in which keys were added.

use vstd::prelude::*;

verus! {

/// What can be a key of a [`Table`].
pub trait Key: DeepView + Sized {
    /// Whether two keys are the same.
    fn same(&self, other: &Self) -> (r: bool)
        ensures
            r == (self.deep_view() == other.deep_view()),
    ;
}

impl Key for String {
    fn same(&self, other: &Self) -> (r: bool) {
        *self == *other
    }
}

impl Key for (String, String) {
    fn same(&self, other: &Self) -> (r: bool) {
        self.0 == other.0 && self.1 == other.1
    }
}

impl Key for (String, String, String) {
    fn same(&self, other: &Self) -> (r: bool) {
        self.0 == other.0 && self.1 == other.1 && self.2 == other.2
    }
}

impl Key for (String, String, String, String) {
    fn same(&self, other: &Self) -> (r: bool) {
        self.0 == other.0 && self.1 == other.1 && self.2 == other.2 && self.3 == other.3
    }
}

/// Labels, or other pairs of names and texts, as a Kubernetes object carries them.
pub type Labels = Table<String, String>;

/// What is under `key` in `map`.
pub open spec fn looked_up<A, B>(map: Map<A, B>, key: A) -> Option<B> {
    if map.dom().contains(key) {
        Some(map[key])
    } else {
        None
    }
}

/// The text under `key`.
pub fn look_up<'a>(labels: &'a Labels, key: &str) -> (r: Option<&'a String>)
    ensures
        match r {
            Some(v) => looked_up(labels.deep_view(), key@) == Some(v@),
            None => looked_up(labels.deep_view(), key@) is None,
        },
{
    labels.get(&key.to_owned())
}

/// A map with its entries in the order in which their keys were added.
pub struct Table<K: Key, V: DeepView> {
    entries: Vec<(K, V)>,
}

/// The entry under `key` in `entries`, if there is one.
pub open spec fn entry_under<K: Key, V: DeepView>(
    entries: Seq<(K, V)>,
    key: K::V,
) -> Option<int> {
    if exists|i: int| 0 <= i < entries.len() && #[trigger] entries[i].0.deep_view() == key {
        Some(choose|i: int| 0 <= i < entries.len() && #[trigger] entries[i].0.deep_view() == key)
    } else {
        None
    }
}

/// Whether no key occurs twice in `entries`.
pub open spec fn keys_distinct<K: Key, V: DeepView>(entries: Seq<(K, V)>) -> bool {
    forall|i: int, j: int|
        0 <= i < entries.len() && 0 <= j < entries.len() && #[trigger] entries[i].0.deep_view()
            == #[trigger] entries[j].0.deep_view() ==> i == j
}

/// The map that `entries` make up.
pub open spec fn map_of<K: Key, V: DeepView>(entries: Seq<(K, V)>) -> Map<K::V, V::V> {
    Map::new(
        |key: K::V| entry_under(entries, key) is Some,
        |key: K::V| entries[entry_under(entries, key)->0].1.deep_view(),
    )
}

impl<K: Key, V: DeepView> DeepView for Table<K, V> {
    type V = Map<K::V, V::V>;

    open spec fn deep_view(&self) -> Map<K::V, V::V> {
        map_of(self.list())
    }
}

/// The entry at `i` is what the map holds under its key.
pub proof fn lemma_found<K: Key, V: DeepView>(entries: Seq<(K, V)>, i: int)
    requires
        keys_distinct(entries),
        0 <= i < entries.len(),
    ensures
        entry_under(entries, entries[i].0.deep_view()) == Some(i),
        map_of(entries).dom().contains(entries[i].0.deep_view()),
        map_of(entries)[entries[i].0.deep_view()] == entries[i].1.deep_view(),
{
}

impl<K: Key, V: DeepView> Table<K, V> {
    /// The entries, in order.
    pub closed spec fn list(self) -> Seq<(K, V)> {
        self.entries@
    }

    #[verifier::type_invariant]
    spec fn distinct(self) -> bool {
        keys_distinct(self.entries@)
    }

    /// A table without entries.
    pub fn new() -> (r: Self)
        ensures
            r.list() == Seq::<(K, V)>::empty(),
            r.deep_view() == Map::<K::V, V::V>::empty(),
    {
        let r = Table { entries: Vec::new() };
        assert(r.deep_view() == Map::<K::V, V::V>::empty());
        r
    }

    /// No key occurs twice.
    pub fn keys_are_distinct(&self)
        ensures
            keys_distinct(self.list()),
    {
        proof {
            use_type_invariant(self);
        }
    }

    /// How many entries there are.
    pub fn len(&self) -> (r: usize)
        ensures
            r == self.list().len(),
            self.deep_view().dom().finite(),
            r == self.deep_view().dom().len(),
    {
        proof {
            use_type_invariant(self);
            lemma_size(self.entries@);
        }
        self.entries.len()
    }

    /// Whether there is no entry.
    pub fn is_empty(&self) -> (r: bool)
        ensures
            r == (self.list().len() == 0),
            r == (self.deep_view() == Map::<K::V, V::V>::empty()),
    {
        proof {
            use_type_invariant(self);
            if self.entries@.len() > 0 {
                lemma_found(self.entries@, 0);
            } else {
                assert(self.deep_view() == Map::<K::V, V::V>::empty());
            }
        }
        self.entries.len() == 0
    }

    /// The key of the entry at `i`.
    pub fn key_at(&self, i: usize) -> (r: &K)
        requires
            i < self.list().len(),
        ensures
            *r == self.list()[i as int].0,
    {
        &self.entries[i].0
    }

    /// The value of the entry at `i`.
    pub fn value_at(&self, i: usize) -> (r: &V)
        requires
            i < self.list().len(),
        ensures
            *r == self.list()[i as int].1,
    {
        &self.entries[i].1
    }

    /// The place of the entry under `key`.
    fn position(&self, key: &K) -> (r: Option<usize>)
        ensures
            match r {
                Some(i) => i < self.entries@.len() && self.entries@[i as int].0.deep_view()
                    == key.deep_view(),
                None => forall|i: int|
                    0 <= i < self.entries@.len() ==> #[trigger] self.entries@[i].0.deep_view()
                        != key.deep_view(),
            },
    {
        let mut i: usize = 0;
        while i < self.entries.len()
            invariant
                i <= self.entries.len(),
                forall|k: int|
                    0 <= k < i ==> #[trigger] self.entries@[k].0.deep_view() != key.deep_view(),
            decreases self.entries.len() - i,
        {
            if self.entries[i].0.same(key) {
                return Some(i);
            }
            i += 1;
        }
        None
    }

    /// The value under `key`.
    pub fn get(&self, key: &K) -> (r: Option<&V>)
        ensures
            match r {
                Some(v) => self.deep_view().dom().contains(key.deep_view())
                    && self.deep_view()[key.deep_view()] == v.deep_view(),
                None => !self.deep_view().dom().contains(key.deep_view()),
            },
    {
        match self.position(key) {
            Some(i) => {
                proof {
                    use_type_invariant(self);
                    lemma_found(self.entries@, i as int);
                }
                Some(&self.entries[i].1)
            },
            None => None,
        }
    }

    /// Puts `value` under `key`, in place of what was there.
    pub fn insert(&mut self, key: K, value: V)
        ensures
            final(self).deep_view() == old(self).deep_view().insert(
                key.deep_view(),
                value.deep_view(),
            ),
    {
        proof {
            use_type_invariant(&*self);
        }
        let place = self.position(&key);
        let ghost before = self.entries@;
        let mut entries: Vec<(K, V)> = Vec::new();
        std::mem::swap(&mut entries, &mut self.entries);
        match place {
            Some(i) => {
                entries[i] = (key, value);
                proof {
                    lemma_replaced(before, i as int, (key, value));
                }
            },
            None => {
                entries.push((key, value));
                proof {
                    lemma_added(before, (key, value));
                }
            },
        }
        self.entries = entries;
    }

    /// Takes out the value under `key`.
    pub fn take(&mut self, key: &K) -> (r: Option<V>)
        ensures
            match r {
                Some(v) => old(self).deep_view().dom().contains(key.deep_view()) && old(
                    self,
                ).deep_view()[key.deep_view()] == v.deep_view(),
                None => !old(self).deep_view().dom().contains(key.deep_view()),
            },
            final(self).deep_view() == old(self).deep_view().remove(key.deep_view()),
    {
        proof {
            use_type_invariant(&*self);
        }
        let place = self.position(key);
        let ghost before = self.entries@;
        match place {
            Some(i) => {
                let mut entries: Vec<(K, V)> = Vec::new();
                std::mem::swap(&mut entries, &mut self.entries);
                let (_, value) = entries.remove(i);
                proof {
                    lemma_found(before, i as int);
                    lemma_removed(before, i as int);
                }
                self.entries = entries;
                Some(value)
            },
            None => {
                assert(self.deep_view().remove(key.deep_view()) == self.deep_view());
                None
            },
        }
    }
}

/// Adding the entry at `i` to the entries before it adds it to the map.
pub proof fn lemma_next<K: Key, V: DeepView>(entries: Seq<(K, V)>, i: int)
    requires
        keys_distinct(entries),
        0 <= i < entries.len(),
    ensures
        map_of(entries.take(i + 1)) == map_of(entries.take(i)).insert(
            entries[i].0.deep_view(),
            entries[i].1.deep_view(),
        ),
{
    let before = entries.take(i);
    assert forall|a: int, b: int|
        0 <= a < before.len() && 0 <= b < before.len() && #[trigger] before[a].0.deep_view()
            == #[trigger] before[b].0.deep_view() implies a == b by {
        assert(entries[a].0.deep_view() == entries[b].0.deep_view());
    }
    assert forall|a: int| 0 <= a < before.len() implies #[trigger] before[a].0.deep_view()
        != entries[i].0.deep_view() by {
        assert(entries[a].0.deep_view() == before[a].0.deep_view());
    }
    lemma_added(before, entries[i]);
    assert(entries.take(i + 1) == before.push(entries[i]));
}

proof fn lemma_replaced<K: Key, V: DeepView>(before: Seq<(K, V)>, i: int, entry: (K, V))
    requires
        keys_distinct(before),
        0 <= i < before.len(),
        before[i].0.deep_view() == entry.0.deep_view(),
    ensures
        keys_distinct(before.update(i, entry)),
        map_of(before.update(i, entry)) == map_of(before).insert(
            entry.0.deep_view(),
            entry.1.deep_view(),
        ),
{
    let after = before.update(i, entry);
    let key = entry.0.deep_view();
    assert forall|j: int| 0 <= j < after.len() implies after[j].0.deep_view()
        == before[j].0.deep_view() by {}
    lemma_found(after, i);
    assert forall|k: K::V| k != key implies #[trigger] map_of(after).dom().contains(k) == map_of(
        before,
    ).dom().contains(k) && (map_of(after).dom().contains(k) ==> map_of(after)[k] == map_of(
        before,
    )[k]) by {
        if exists|j: int| 0 <= j < before.len() && #[trigger] before[j].0.deep_view() == k {
            let j = choose|j: int| 0 <= j < before.len() && #[trigger] before[j].0.deep_view() == k;
            assert(after[j].0.deep_view() == k);
            lemma_found(before, j);
            lemma_found(after, j);
        } else if exists|j: int| 0 <= j < after.len() && #[trigger] after[j].0.deep_view() == k {
            let j = choose|j: int| 0 <= j < after.len() && #[trigger] after[j].0.deep_view() == k;
            assert(before[j].0.deep_view() == k);
        }
    }
    assert(map_of(after).dom() =~= map_of(before).insert(key, entry.1.deep_view()).dom());
    assert(map_of(after) =~= map_of(before).insert(key, entry.1.deep_view()));
}

proof fn lemma_added<K: Key, V: DeepView>(before: Seq<(K, V)>, entry: (K, V))
    requires
        keys_distinct(before),
        forall|i: int|
            0 <= i < before.len() ==> #[trigger] before[i].0.deep_view() != entry.0.deep_view(),
    ensures
        keys_distinct(before.push(entry)),
        map_of(before.push(entry)) == map_of(before).insert(
            entry.0.deep_view(),
            entry.1.deep_view(),
        ),
{
    let after = before.push(entry);
    let key = entry.0.deep_view();
    assert forall|i: int, j: int|
        0 <= i < after.len() && 0 <= j < after.len() && #[trigger] after[i].0.deep_view()
            == #[trigger] after[j].0.deep_view() implies i == j by {
        if i < before.len() {
            assert(before[i].0.deep_view() == after[i].0.deep_view());
        }
        if j < before.len() {
            assert(before[j].0.deep_view() == after[j].0.deep_view());
        }
    }
    lemma_found(after, before.len() as int);
    assert(after[before.len() as int] == entry);
    assert(map_of(after).dom().contains(key));
    assert(map_of(after)[key] == entry.1.deep_view());
    assert forall|k: K::V| k != key implies #[trigger] map_of(after).dom().contains(k) == map_of(
        before,
    ).dom().contains(k) && (map_of(after).dom().contains(k) ==> map_of(after)[k] == map_of(
        before,
    )[k]) by {
        if exists|j: int| 0 <= j < before.len() && #[trigger] before[j].0.deep_view() == k {
            let j = choose|j: int| 0 <= j < before.len() && #[trigger] before[j].0.deep_view() == k;
            assert(after[j].0.deep_view() == k);
            lemma_found(before, j);
            lemma_found(after, j);
        } else if exists|j: int| 0 <= j < after.len() && #[trigger] after[j].0.deep_view() == k {
            let j = choose|j: int| 0 <= j < after.len() && #[trigger] after[j].0.deep_view() == k;
            assert(before[j].0.deep_view() == k);
        }
    }
    assert(map_of(after).dom() =~= map_of(before).insert(key, entry.1.deep_view()).dom());
    assert(map_of(after) =~= map_of(before).insert(key, entry.1.deep_view()));
}

proof fn lemma_removed<K: Key, V: DeepView>(before: Seq<(K, V)>, i: int)
    requires
        keys_distinct(before),
        0 <= i < before.len(),
    ensures
        keys_distinct(before.remove(i)),
        map_of(before.remove(i)) == map_of(before).remove(before[i].0.deep_view()),
{
    let after = before.remove(i);
    let key = before[i].0.deep_view();
    assert forall|a: int, b: int|
        0 <= a < after.len() && 0 <= b < after.len() && #[trigger] after[a].0.deep_view()
            == #[trigger] after[b].0.deep_view() implies a == b by {
        let a2 = if a < i { a } else { a + 1 };
        let b2 = if b < i { b } else { b + 1 };
        assert(before[a2].0.deep_view() == before[b2].0.deep_view());
    }
    assert forall|k: K::V| #[trigger] map_of(after).dom().contains(k) == (k != key && map_of(
        before,
    ).dom().contains(k)) && (map_of(after).dom().contains(k) ==> map_of(after)[k] == map_of(
        before,
    )[k]) by {
        if exists|j: int| 0 <= j < before.len() && #[trigger] before[j].0.deep_view() == k {
            let j = choose|j: int| 0 <= j < before.len() && #[trigger] before[j].0.deep_view() == k;
            lemma_found(before, j);
            if j != i {
                let j2 = if j < i { j } else { j - 1 };
                assert(after[j2] == before[j]);
                assert(after[j2].0.deep_view() == k);
                lemma_found(after, j2);
            } else if exists|m: int| 0 <= m < after.len() && #[trigger] after[m].0.deep_view() == k {
                let m = choose|m: int| 0 <= m < after.len() && #[trigger] after[m].0.deep_view()
                    == k;
                let m2 = if m < i { m } else { m + 1 };
                assert(before[m2].0.deep_view() == k);
            }
        } else if exists|j: int| 0 <= j < after.len() && #[trigger] after[j].0.deep_view() == k {
            let j = choose|j: int| 0 <= j < after.len() && #[trigger] after[j].0.deep_view() == k;
            let j2 = if j < i { j } else { j + 1 };
            assert(before[j2].0.deep_view() == k);
        }
    }
    assert(map_of(after).dom() =~= map_of(before).remove(key).dom());
    assert(map_of(after) =~= map_of(before).remove(key));
}

proof fn lemma_size<K: Key, V: DeepView>(entries: Seq<(K, V)>)
    requires
        keys_distinct(entries),
    ensures
        map_of(entries).dom().finite(),
        map_of(entries).dom().len() == entries.len(),
    decreases entries.len(),
{
    if entries.len() == 0 {
        assert(map_of(entries).dom() =~= Set::empty());
    } else {
        let init = entries.drop_last();
        let entry = entries.last();
        assert(keys_distinct(init)) by {
            assert forall|i: int, j: int|
                0 <= i < init.len() && 0 <= j < init.len() && #[trigger] init[i].0.deep_view()
                    == #[trigger] init[j].0.deep_view() implies i == j by {
                assert(entries[i].0.deep_view() == entries[j].0.deep_view());
            }
        }
        assert forall|i: int| 0 <= i < init.len() implies #[trigger] init[i].0.deep_view()
            != entry.0.deep_view() by {
            assert(entries[i].0.deep_view() == init[i].0.deep_view());
            assert(entries[entries.len() - 1].0.deep_view() == entry.0.deep_view());
        }
        lemma_size(init);
        lemma_added(init, entry);
        assert(init.push(entry) == entries);
        assert(!map_of(init).dom().contains(entry.0.deep_view()));
        assert(map_of(entries).dom() =~= map_of(init).dom().insert(entry.0.deep_view()));
    }
}

/// What a table holds are its entries: under each key the value that stands with it, and
/// nothing under any other key.
pub proof fn law_tables_hold_their_entries<K: Key, V: DeepView>(entries: Seq<(K, V)>, key: K::V)
    requires
        keys_distinct(entries),
    ensures
        looked_up(map_of(entries), key) is Some <==> exists|i: int|
            0 <= i < entries.len() && #[trigger] entries[i].0.deep_view() == key,
        forall|i: int|
            0 <= i < entries.len() && #[trigger] entries[i].0.deep_view() == key ==> looked_up(
                map_of(entries),
                key,
            ) == Some(entries[i].1.deep_view()),
{
    assert(map_of(entries).dom().contains(key) <==> entry_under(entries, key) is Some);
    assert forall|i: int|
        0 <= i < entries.len() && #[trigger] entries[i].0.deep_view() == key implies looked_up(
        map_of(entries),
        key,
    ) == Some(entries[i].1.deep_view()) by {
        lemma_found(entries, i);
    }
}

} // verus!
