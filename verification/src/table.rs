//! A keyed store that keeps one liveness flag beside each value.
//!
//! The flag records whether the value was used since the store was last
//! swept. A sweep drops the values that were not, hands them to the caller,
//! and clears the flag of those that stay.

use vstd::prelude::*;

verus! {

/// Keys that can be compared in compiled code.
pub trait Key: Sized {
    /// Whether the two keys are the same key.
    fn same(&self, other: &Self) -> (equal: bool)
        ensures
            equal == (*self == *other),
    ;
}

impl Key for u64 {
    fn same(&self, other: &u64) -> (equal: bool) {
        *self == *other
    }
}

/// One entry of the store.
pub struct Slot<K, V> {
    pub key: K,
    pub value: V,
    pub touched: bool,
}

/// Every key occurs at most once.
pub open spec fn distinct<K, V>(slots: Seq<Slot<K, V>>) -> bool {
    forall|i: int, j: int|
        0 <= i < j < slots.len() ==> (#[trigger] slots[i]).key != (#[trigger] slots[j]).key
}

/// The slots as a map from each key to its value and flag.
pub open spec fn model<K, V>(slots: Seq<Slot<K, V>>) -> Map<K, (V, bool)> {
    Map::new(
        |k: K| exists|i: int| 0 <= i < slots.len() && (#[trigger] slots[i]).key == k,
        |k: K|
            {
                let i = choose|i: int| 0 <= i < slots.len() && (#[trigger] slots[i]).key == k;
                (slots[i].value, slots[i].touched)
            },
    )
}

/// The map with the flag of `key` set, if `key` is there.
pub open spec fn marked<K, V>(m: Map<K, (V, bool)>, key: K) -> Map<K, (V, bool)> {
    if m.contains_key(key) {
        m.insert(key, (m[key].0, true))
    } else {
        m
    }
}

/// What a sweep leaves: the flagged entries, their flags cleared.
pub open spec fn survivors<K, V>(m: Map<K, (V, bool)>) -> Map<K, (V, bool)> {
    Map::new(|k: K| m.contains_key(k) && m[k].1, |k: K| (m[k].0, false))
}

/// `evicted` lists what a sweep drops: each entry that is not flagged,
/// once, as its key and its value, and nothing else.
pub open spec fn dropped<K, V>(m: Map<K, (V, bool)>, evicted: Seq<(K, V)>) -> bool {
    &&& forall|i: int, j: int|
        0 <= i < j < evicted.len() ==> (#[trigger] evicted[i]).0 != (#[trigger] evicted[j]).0
    &&& forall|i: int|
        0 <= i < evicted.len() ==> {
            let (key, value) = #[trigger] evicted[i];
            m.contains_key(key) && !m[key].1 && m[key].0 == value
        }
    &&& forall|key: K| #[trigger]
        m.contains_key(key) && !m[key].1 ==> exists|i: int|
            0 <= i < evicted.len() && (#[trigger] evicted[i]).0 == key
}

proof fn lemma_model<K, V>(slots: Seq<Slot<K, V>>)
    requires
        distinct(slots),
    ensures
        forall|i: int|
            0 <= i < slots.len() ==> model(slots).contains_key((#[trigger] slots[i]).key) && model(
                slots,
            )[slots[i].key] == (slots[i].value, slots[i].touched),
{
    assert forall|i: int| 0 <= i < slots.len() implies model(slots).contains_key(
        (#[trigger] slots[i]).key,
    ) && model(slots)[slots[i].key] == (slots[i].value, slots[i].touched) by {
        let k = slots[i].key;
        let j = choose|j: int| 0 <= j < slots.len() && (#[trigger] slots[j]).key == k;
        assert(i == j);
    }
}

/// The store.
pub struct Table<K, V> {
    slots: Vec<Slot<K, V>>,
}

impl<K: Key, V> Table<K, V> {
    /// No key is stored twice.
    pub closed spec fn wf(&self) -> bool {
        distinct(self.slots@)
    }

    /// The store as a map from each key to its value and flag.
    pub closed spec fn view(&self) -> Map<K, (V, bool)> {
        model(self.slots@)
    }

    /// An empty store.
    pub fn new() -> (table: Self)
        ensures
            table.wf(),
            table@ == Map::<K, (V, bool)>::empty(),
    {
        let table = Table { slots: Vec::new() };
        assert(table@ =~= Map::<K, (V, bool)>::empty());
        table
    }

    fn position(&self, key: &K) -> (found: Option<usize>)
        requires
            self.wf(),
        ensures
            match found {
                Some(i) => i < self.slots@.len() && self.slots@[i as int].key == *key,
                None => !self@.contains_key(*key),
            },
            found.is_some() == self@.contains_key(*key),
    {
        let mut i: usize = 0;
        while i < self.slots.len()
            invariant
                self.wf(),
                i <= self.slots.len(),
                forall|j: int| 0 <= j < i ==> (#[trigger] self.slots@[j]).key != *key,
            decreases self.slots.len() - i,
        {
            if self.slots[i].key.same(key) {
                proof {
                    lemma_model(self.slots@);
                }
                return Some(i);
            }
            i += 1;
        }
        None
    }

    /// Whether `key` is stored.
    pub fn contains(&self, key: &K) -> (found: bool)
        requires
            self.wf(),
        ensures
            found == self@.contains_key(*key),
    {
        self.position(key).is_some()
    }

    /// The value stored under `key`.
    pub fn get(&self, key: &K) -> (value: Option<&V>)
        requires
            self.wf(),
        ensures
            value.is_some() == self@.contains_key(*key),
            value matches Some(v) ==> *v == self@[*key].0,
    {
        match self.position(key) {
            Some(i) => {
                proof {
                    lemma_model(self.slots@);
                }
                Some(&self.slots[i].value)
            },
            None => None,
        }
    }

    /// Sets the flag of `key`, if `key` is stored.
    pub fn touch(&mut self, key: &K)
        requires
            old(self).wf(),
        ensures
            final(self).wf(),
            final(self)@ == marked(old(self)@, *key),
    {
        match self.position(key) {
            Some(i) => {
                self.slots[i].touched = true;
                proof {
                    let before = old(self).slots@;
                    let after = self.slots@;
                    assert(after.len() == before.len());
                    assert forall|j: int| 0 <= j < after.len() implies (#[trigger] after[j]).key
                        == before[j].key && after[j].value == before[j].value by {}
                    lemma_model(before);
                    lemma_model(after);
                    assert forall|k: K|
                        model(after).contains_key(k) == marked(old(self)@, *key).contains_key(
                            k,
                        ) by {
                        if model(after).contains_key(k) {
                            let j = choose|j: int|
                                0 <= j < after.len() && (#[trigger] after[j]).key == k;
                            assert(before[j].key == k);
                        }
                        if model(before).contains_key(k) {
                            let j = choose|j: int|
                                0 <= j < before.len() && (#[trigger] before[j]).key == k;
                            assert(after[j].key == k);
                        }
                    }
                    assert forall|k: K| model(after).contains_key(k) implies model(after)[k]
                        == marked(old(self)@, *key)[k] by {
                        let j = choose|j: int|
                            0 <= j < after.len() && (#[trigger] after[j]).key == k;
                        assert(before[j].key == k);
                    }
                    assert(self@ =~= marked(old(self)@, *key));
                }
            },
            None => {},
        }
    }

    /// Stores `value` under `key` with the given flag, in place of what was
    /// stored under `key` before.
    pub fn insert(&mut self, key: K, value: V, touched: bool)
        requires
            old(self).wf(),
        ensures
            final(self).wf(),
            final(self)@ == old(self)@.insert(key, (value, touched)),
    {
        let found = self.position(&key);
        let ghost before = self.slots@;
        proof {
            lemma_model(before);
        }
        match found {
            Some(i) => {
                self.slots[i] = Slot { key, value, touched };
                proof {
                    let after = self.slots@;
                    assert(after.len() == before.len());
                    assert forall|j: int| 0 <= j < after.len() implies (#[trigger] after[j]).key
                        == before[j].key by {}
                    lemma_model(after);
                    assert forall|k: K|
                        model(after).contains_key(k) == old(self)@.insert(
                            key,
                            (value, touched),
                        ).contains_key(k) by {
                        if model(after).contains_key(k) {
                            let j = choose|j: int|
                                0 <= j < after.len() && (#[trigger] after[j]).key == k;
                            assert(before[j].key == k);
                        }
                        if model(before).contains_key(k) {
                            let j = choose|j: int|
                                0 <= j < before.len() && (#[trigger] before[j]).key == k;
                            assert(after[j].key == k);
                        }
                        if k == key {
                            assert(after[i as int].key == k);
                        }
                    }
                    assert forall|k: K| model(after).contains_key(k) implies model(after)[k]
                        == old(self)@.insert(key, (value, touched))[k] by {
                        let j = choose|j: int|
                            0 <= j < after.len() && (#[trigger] after[j]).key == k;
                        assert(before[j].key == k);
                    }
                    assert(self@ =~= old(self)@.insert(key, (value, touched)));
                }
            },
            None => {
                self.slots.push(Slot { key, value, touched });
                proof {
                    let after = self.slots@;
                    assert(after == before.push(Slot { key, value, touched }));
                    assert forall|i: int, j: int| 0 <= i < j < after.len() implies (
                    #[trigger] after[i]).key != (#[trigger] after[j]).key by {
                        if j == before.len() {
                            assert(before[i].key != key);
                        } else {
                            assert(before[i].key != before[j].key);
                        }
                    }
                    lemma_model(after);
                    assert forall|k: K|
                        model(after).contains_key(k) == old(self)@.insert(
                            key,
                            (value, touched),
                        ).contains_key(k) by {
                        if model(after).contains_key(k) {
                            let j = choose|j: int|
                                0 <= j < after.len() && (#[trigger] after[j]).key == k;
                            if j < before.len() {
                                assert(before[j].key == k);
                            }
                        }
                        if model(before).contains_key(k) {
                            let j = choose|j: int|
                                0 <= j < before.len() && (#[trigger] before[j]).key == k;
                            assert(after[j].key == k);
                        }
                        if k == key {
                            assert(after[before.len() as int].key == k);
                        }
                    }
                    assert forall|k: K| model(after).contains_key(k) implies model(after)[k]
                        == old(self)@.insert(key, (value, touched))[k] by {
                        let j = choose|j: int|
                            0 <= j < after.len() && (#[trigger] after[j]).key == k;
                        if j < before.len() {
                            assert(before[j].key == k);
                        }
                    }
                    assert(self@ =~= old(self)@.insert(key, (value, touched)));
                }
            },
        }
    }

    /// Sweeps the store: drops every entry whose flag is not set and returns
    /// the dropped entries; clears the flag of every entry that stays.
    pub fn retain_touched(&mut self) -> (evicted: Vec<(K, V)>)
        requires
            old(self).wf(),
        ensures
            final(self).wf(),
            final(self)@ == survivors(old(self)@),
            dropped(old(self)@, evicted@),
    {
        let mut rest: Vec<Slot<K, V>> = Vec::new();
        core::mem::swap(&mut rest, &mut self.slots);
        let ghost all = rest@;
        let ghost mut kept_from: Seq<int> = Seq::empty();
        let ghost mut evicted_from: Seq<int> = Seq::empty();
        let mut evicted: Vec<(K, V)> = Vec::new();
        proof {
            lemma_model(all);
        }
        while rest.len() > 0
            invariant
                distinct(all),
                all == old(self).slots@,
                rest@.len() <= all.len(),
                rest@ == all.subrange(0, rest@.len() as int),
                kept_from.len() == self.slots@.len(),
                evicted_from.len() == evicted@.len(),
                forall|i: int|
                    0 <= i < kept_from.len() ==> {
                        let j = #[trigger] kept_from[i];
                        &&& rest@.len() <= j < all.len()
                        &&& all[j].touched
                        &&& self.slots@[i].key == all[j].key
                        &&& self.slots@[i].value == all[j].value
                        &&& !self.slots@[i].touched
                    },
                forall|i: int, i2: int|
                    0 <= i < i2 < kept_from.len() ==> #[trigger] kept_from[i] > #[trigger] kept_from[i2],
                forall|j: int|
                    rest@.len() <= j < all.len() && (#[trigger] all[j]).touched ==> exists|i: int|
                        0 <= i < kept_from.len() && #[trigger] kept_from[i] == j,
                forall|i: int|
                    0 <= i < evicted_from.len() ==> {
                        let j = #[trigger] evicted_from[i];
                        &&& rest@.len() <= j < all.len()
                        &&& !all[j].touched
                        &&& evicted@[i] == (all[j].key, all[j].value)
                    },
                forall|i: int, i2: int|
                    0 <= i < i2 < evicted_from.len() ==> #[trigger] evicted_from[i]
                        > #[trigger] evicted_from[i2],
                forall|j: int|
                    rest@.len() <= j < all.len() && !(#[trigger] all[j]).touched ==> exists|i: int|
                        0 <= i < evicted_from.len() && #[trigger] evicted_from[i] == j,
            decreases rest.len(),
        {
            let ghost n = rest@.len() - 1;
            let ghost kept_before = kept_from;
            let ghost evicted_before = evicted_from;
            let slot = rest.pop().unwrap();
            assert(slot == all[n]);
            if slot.touched {
                self.slots.push(Slot { key: slot.key, value: slot.value, touched: false });
                proof {
                    kept_from = kept_from.push(n);
                    assert forall|j: int|
                        rest@.len() <= j < all.len() && (#[trigger] all[j]).touched implies exists|
                        i: int,
                    |
                        0 <= i < kept_from.len() && #[trigger] kept_from[i] == j by {
                        if j == n {
                            assert(kept_from[kept_before.len() as int] == j);
                        } else {
                            let i = choose|i: int|
                                0 <= i < kept_before.len() && #[trigger] kept_before[i] == j;
                            assert(kept_from[i] == j);
                        }
                    }
                }
            } else {
                evicted.push((slot.key, slot.value));
                proof {
                    evicted_from = evicted_from.push(n);
                    assert forall|j: int|
                        rest@.len() <= j < all.len() && !(#[trigger] all[j]).touched implies exists|
                        i: int,
                    |
                        0 <= i < evicted_from.len() && #[trigger] evicted_from[i] == j by {
                        if j == n {
                            assert(evicted_from[evicted_before.len() as int] == j);
                        } else {
                            let i = choose|i: int|
                                0 <= i < evicted_before.len() && #[trigger] evicted_before[i] == j;
                            assert(evicted_from[i] == j);
                        }
                    }
                }
            }
        }
        proof {
            let kept = self.slots@;
            let before = old(self)@;
            assert forall|i: int, i2: int| 0 <= i < i2 < kept.len() implies (#[trigger] kept[i]).key
                != (#[trigger] kept[i2]).key by {
                assert(kept_from[i] > kept_from[i2]);
                assert(all[kept_from[i2]].key != all[kept_from[i]].key);
            }
            lemma_model(kept);
            assert forall|k: K| model(kept).contains_key(k) == survivors(before).contains_key(
                k,
            ) by {
                if model(kept).contains_key(k) {
                    let i = choose|i: int| 0 <= i < kept.len() && (#[trigger] kept[i]).key == k;
                    let j = kept_from[i];
                    assert(all[j].key == k);
                }
                if before.contains_key(k) && before[k].1 {
                    let j = choose|j: int| 0 <= j < all.len() && (#[trigger] all[j]).key == k;
                    let i = choose|i: int| 0 <= i < kept_from.len() && #[trigger] kept_from[i] == j;
                    assert(kept[i].key == k);
                }
            }
            assert forall|k: K| model(kept).contains_key(k) implies model(kept)[k] == survivors(
                before,
            )[k] by {
                let i = choose|i: int| 0 <= i < kept.len() && (#[trigger] kept[i]).key == k;
                let j = kept_from[i];
                assert(all[j].key == k);
            }
            assert(self@ =~= survivors(before));
            assert forall|i: int, j: int| 0 <= i < j < evicted@.len() implies (
            #[trigger] evicted@[i]).0 != (#[trigger] evicted@[j]).0 by {
                assert(evicted_from[i] > evicted_from[j]);
                assert(all[evicted_from[j]].key != all[evicted_from[i]].key);
            }
            assert forall|i: int| 0 <= i < evicted@.len() implies {
                let (key, value) = #[trigger] evicted@[i];
                before.contains_key(key) && !before[key].1 && before[key].0 == value
            } by {
                let j = evicted_from[i];
                assert(before.contains_key(all[j].key));
            }
            assert forall|key: K| #[trigger]
                before.contains_key(key) && !before[key].1 implies exists|i: int|
                0 <= i < evicted@.len() && (#[trigger] evicted@[i]).0 == key by {
                let j = choose|j: int| 0 <= j < all.len() && (#[trigger] all[j]).key == key;
                let i = choose|i: int|
                    0 <= i < evicted_from.len() && #[trigger] evicted_from[i] == j;
                assert(evicted@[i].0 == key);
            }
        }
        evicted
    }
}

} // verus!
