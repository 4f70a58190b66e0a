//! Keyed storage: a finite map that lists its keys in an order of its own.
use vstd::prelude::*;

verus! {

/// A key of a [`StorageMap`].
pub trait StorageKey: Copy {
    /// Whether two keys are equal.
    fn same(&self, other: &Self) -> (r: bool)
        ensures
            r == (*self == *other),
    ;
}

impl StorageKey for u16 {
    fn same(&self, other: &Self) -> (r: bool) {
        *self == *other
    }
}

/// A finite map, held as a list of entries with distinct keys.
pub struct StorageMap<K, V> {
    entries: Vec<(K, V)>,
}

/// The map that a list of entries with distinct keys stands for.
pub open spec fn entries_map<K, V>(entries: Seq<(K, V)>) -> Map<K, V> {
    Map::new(
        |k: K| exists|i: int| 0 <= i < entries.len() && (#[trigger] entries[i]).0 == k,
        |k: K| entries[choose|i: int| 0 <= i < entries.len() && (#[trigger] entries[i]).0 == k].1,
    )
}

/// No key occurs twice.
pub open spec fn distinct_keys<K, V>(entries: Seq<(K, V)>) -> bool {
    forall|i: int, j: int|
        0 <= i < j < entries.len() ==> (#[trigger] entries[i]).0 != (#[trigger] entries[j]).0
}

proof fn lemma_entry<K, V>(entries: Seq<(K, V)>, i: int)
    requires
        distinct_keys(entries),
        0 <= i < entries.len(),
    ensures
        entries_map(entries).contains_key(entries[i].0),
        entries_map(entries)[entries[i].0] == entries[i].1,
{
    let k = entries[i].0;
    let j = choose|j: int| 0 <= j < entries.len() && (#[trigger] entries[j]).0 == k;
    assert(entries[j].0 == k);
    if i < j {
        assert(entries[i].0 != entries[j].0);
    } else if j < i {
        assert(entries[j].0 != entries[i].0);
    }
}

proof fn lemma_set<K, V>(before: Seq<(K, V)>, i: int, key: K, value: V)
    requires
        distinct_keys(before),
        0 <= i < before.len(),
        before[i].0 == key,
    ensures
        distinct_keys(before.update(i, (key, value))),
        entries_map(before.update(i, (key, value))) == entries_map(before).insert(key, value),
{
    let after = before.update(i, (key, value));
    assert forall|a: int, b: int| 0 <= a < b < after.len() implies (#[trigger] after[a]).0 != (
    #[trigger] after[b]).0 by {
        assert(before[a].0 != before[b].0);
    }
    let expected = entries_map(before).insert(key, value);
    assert forall|k: K| #[trigger]
        entries_map(after).dom().contains(k) == expected.dom().contains(k) by {
        if entries_map(after).dom().contains(k) {
            let j = choose|j: int| 0 <= j < after.len() && (#[trigger] after[j]).0 == k;
            assert(before[j].0 == k);
        }
        if expected.dom().contains(k) {
            if k == key {
                assert(after[i].0 == k);
            } else {
                let j = choose|j: int| 0 <= j < before.len() && (#[trigger] before[j]).0 == k;
                assert(after[j].0 == k);
            }
        }
    }
    assert forall|k: K| entries_map(after).dom().contains(k) implies #[trigger] entries_map(
        after,
    )[k] == expected[k] by {
        let j = choose|j: int| 0 <= j < after.len() && (#[trigger] after[j]).0 == k;
        lemma_entry(after, j);
        lemma_entry(before, j);
        if j != i {
            if j < i {
                assert(before[j].0 != before[i].0);
            } else {
                assert(before[i].0 != before[j].0);
            }
        }
    }
    assert(entries_map(after) =~= expected);
}

proof fn lemma_push<K, V>(before: Seq<(K, V)>, key: K, value: V)
    requires
        distinct_keys(before),
        forall|i: int| 0 <= i < before.len() ==> (#[trigger] before[i]).0 != key,
    ensures
        distinct_keys(before.push((key, value))),
        entries_map(before.push((key, value))) == entries_map(before).insert(key, value),
{
    let after = before.push((key, value));
    assert forall|a: int, b: int| 0 <= a < b < after.len() implies (#[trigger] after[a]).0 != (
    #[trigger] after[b]).0 by {
        if b < before.len() {
            assert(before[a].0 != before[b].0);
        } else {
            assert(before[a].0 != key);
        }
    }
    let expected = entries_map(before).insert(key, value);
    assert forall|k: K| #[trigger]
        entries_map(after).dom().contains(k) == expected.dom().contains(k) by {
        if entries_map(after).dom().contains(k) {
            let j = choose|j: int| 0 <= j < after.len() && (#[trigger] after[j]).0 == k;
            if j < before.len() {
                assert(before[j].0 == k);
            }
        }
        if expected.dom().contains(k) {
            if k == key {
                assert(after[before.len() as int].0 == k);
            } else {
                let j = choose|j: int| 0 <= j < before.len() && (#[trigger] before[j]).0 == k;
                assert(after[j].0 == k);
            }
        }
    }
    assert forall|k: K| entries_map(after).dom().contains(k) implies #[trigger] entries_map(
        after,
    )[k] == expected[k] by {
        let j = choose|j: int| 0 <= j < after.len() && (#[trigger] after[j]).0 == k;
        lemma_entry(after, j);
        if j < before.len() {
            assert(before[j].0 != key);
            lemma_entry(before, j);
        }
    }
    assert(entries_map(after) =~= expected);
}

proof fn lemma_remove<K, V>(before: Seq<(K, V)>, i: int)
    requires
        distinct_keys(before),
        0 <= i < before.len(),
    ensures
        distinct_keys(before.remove(i)),
        entries_map(before.remove(i)) == entries_map(before).remove(before[i].0),
{
    let key = before[i].0;
    let after = before.remove(i);
    let old_index = |j: int|
        if j < i {
            j
        } else {
            j + 1
        };
    assert forall|j: int| 0 <= j < after.len() implies (#[trigger] after[j]) == before[old_index(
        j,
    )] by {}
    assert forall|a: int, b: int| 0 <= a < b < after.len() implies (#[trigger] after[a]).0 != (
    #[trigger] after[b]).0 by {
        assert(before[old_index(a)].0 != before[old_index(b)].0);
    }
    let expected = entries_map(before).remove(key);
    assert forall|k: K| #[trigger]
        entries_map(after).dom().contains(k) == expected.dom().contains(k) by {
        if entries_map(after).dom().contains(k) {
            let j = choose|j: int| 0 <= j < after.len() && (#[trigger] after[j]).0 == k;
            let o = old_index(j);
            assert(before[o].0 == k);
            if o < i {
                assert(before[o].0 != before[i].0);
            } else {
                assert(before[i].0 != before[o].0);
            }
        }
        if expected.dom().contains(k) {
            let j = choose|j: int| 0 <= j < before.len() && (#[trigger] before[j]).0 == k;
            let a = if j < i {
                j
            } else {
                j - 1
            };
            assert(after[a].0 == k);
        }
    }
    assert forall|k: K| entries_map(after).dom().contains(k) implies #[trigger] entries_map(
        after,
    )[k] == expected[k] by {
        let j = choose|j: int| 0 <= j < after.len() && (#[trigger] after[j]).0 == k;
        lemma_entry(after, j);
        lemma_entry(before, old_index(j));
    }
    assert(entries_map(after) =~= expected);
}

proof fn lemma_absent<K, V>(entries: Seq<(K, V)>, k: K)
    requires
        forall|i: int| 0 <= i < entries.len() ==> (#[trigger] entries[i]).0 != k,
    ensures
        !entries_map(entries).contains_key(k),
{
}

proof fn lemma_finite<K, V>(entries: Seq<(K, V)>)
    ensures
        entries_map(entries).dom().finite(),
{
    let keys = Seq::new(entries.len(), |i: int| entries[i].0);
    assert(entries_map(entries).dom() =~= keys.to_set()) by {
        assert forall|k: K| keys.to_set().contains(k) implies entries_map(
            entries,
        ).dom().contains(k) by {
            let i = choose|i: int| 0 <= i < keys.len() && keys[i] == k;
            assert(entries[i].0 == k);
        }
        assert forall|k: K| entries_map(entries).dom().contains(k) implies keys.to_set().contains(
            k,
        ) by {
            let i = choose|i: int| 0 <= i < entries.len() && (#[trigger] entries[i]).0 == k;
            assert(keys[i] == k);
        }
    }
    vstd::seq_lib::seq_to_set_is_finite(keys);
}

impl<K, V> View for StorageMap<K, V> {
    type V = Map<K, V>;

    closed spec fn view(&self) -> Map<K, V> {
        entries_map(self.entries@)
    }
}

impl<K, V> StorageMap<K, V> {
    #[verifier::type_invariant]
    spec fn well_formed(self) -> bool {
        distinct_keys(self.entries@)
    }
}

impl<K: StorageKey, V> StorageMap<K, V> {
    /// The empty map.
    pub fn new() -> (r: Self)
        ensures
            r@ == Map::<K, V>::empty(),
    {
        let r = StorageMap { entries: Vec::new() };
        assert(r@ =~= Map::<K, V>::empty());
        r
    }

    /// The map is finite.
    pub proof fn lemma_view_finite(&self)
        ensures
            self@.dom().finite(),
    {
        lemma_finite(self.entries@);
    }

    fn position(&self, key: &K) -> (r: Option<usize>)
        ensures
            match r {
                Some(i) => i < self.entries@.len() && self.entries@[i as int].0 == *key,
                None => forall|i: int|
                    0 <= i < self.entries@.len() ==> (#[trigger] self.entries@[i]).0 != *key,
            },
    {
        let mut i: usize = 0;
        while i < self.entries.len()
            invariant
                i <= self.entries@.len(),
                forall|j: int| 0 <= j < i ==> (#[trigger] self.entries@[j]).0 != *key,
            decreases self.entries@.len() - i,
        {
            if self.entries[i].0.same(key) {
                return Some(i);
            }
            i = i + 1;
        }
        None
    }

    /// Whether the map has the key.
    pub fn contains_key(&self, key: &K) -> (r: bool)
        ensures
            r == self@.contains_key(*key),
    {
        proof {
            use_type_invariant(self);
        }
        match self.position(key) {
            Some(i) => {
                proof {
                    lemma_entry(self.entries@, i as int);
                }
                true
            },
            None => false,
        }
    }

    /// The value under the key.
    pub fn get(&self, key: &K) -> (r: Option<&V>)
        ensures
            match r {
                Some(v) => self@.contains_key(*key) && *v == self@[*key],
                None => !self@.contains_key(*key),
            },
    {
        proof {
            use_type_invariant(self);
        }
        match self.position(key) {
            Some(i) => {
                proof {
                    lemma_entry(self.entries@, i as int);
                }
                Some(&self.entries[i].1)
            },
            None => None,
        }
    }

    /// Put a value under the key.
    pub fn insert(&mut self, key: K, value: V)
        ensures
            final(self)@ == old(self)@.insert(key, value),
    {
        proof {
            use_type_invariant(&*self);
        }
        let found = self.position(&key);
        let mut entries: Vec<(K, V)> = Vec::new();
        std::mem::swap(&mut entries, &mut self.entries);
        match found {
            Some(i) => {
                proof {
                    lemma_set(entries@, i as int, key, value);
                }
                entries.set(i, (key, value));
            },
            None => {
                proof {
                    lemma_push(entries@, key, value);
                }
                entries.push((key, value));
            },
        }
        self.entries = entries;
    }

    /// Drop the key.
    pub fn remove(&mut self, key: &K)
        ensures
            final(self)@ == old(self)@.remove(*key),
    {
        proof {
            use_type_invariant(&*self);
        }
        let found = self.position(key);
        let mut entries: Vec<(K, V)> = Vec::new();
        std::mem::swap(&mut entries, &mut self.entries);
        match found {
            Some(i) => {
                proof {
                    lemma_remove(entries@, i as int);
                }
                let _ = entries.remove(i);
            },
            None => {
                proof {
                    lemma_absent(entries@, *key);
                    assert(entries_map(entries@).remove(*key) =~= entries_map(entries@));
                }
            },
        }
        self.entries = entries;
    }

    /// The order in which the map lists its keys.
    pub closed spec fn listing(&self) -> Seq<K> {
        Seq::new(self.entries@.len(), |i: int| self.entries@[i].0)
    }

    /// The keys of the map, each once, in the order of the map.
    pub fn keys(&self) -> (r: Vec<K>)
        ensures
            r@ == self.listing(),
            r@.no_duplicates(),
            forall|k: K| r@.contains(k) <==> self@.contains_key(k),
    {
        proof {
            use_type_invariant(self);
        }
        let mut r: Vec<K> = Vec::new();
        let mut i: usize = 0;
        while i < self.entries.len()
            invariant
                i <= self.entries@.len(),
                r@.len() == i,
                forall|j: int| 0 <= j < i ==> #[trigger] r@[j] == self.entries@[j].0,
            decreases self.entries@.len() - i,
        {
            r.push(self.entries[i].0);
            i = i + 1;
        }
        proof {
            assert forall|a: int, b: int|
                0 <= a < r@.len() && 0 <= b < r@.len() && a != b implies r@[a] != r@[b] by {
                if a < b {
                    assert(self.entries@[a].0 != self.entries@[b].0);
                } else {
                    assert(self.entries@[b].0 != self.entries@[a].0);
                }
            }
            assert(r@ =~= self.listing());
            assert forall|k: K| r@.contains(k) <==> self@.contains_key(k) by {
                if r@.contains(k) {
                    let j = choose|j: int| 0 <= j < r@.len() && r@[j] == k;
                    assert(self.entries@[j].0 == k);
                }
                if self@.contains_key(k) {
                    let j = choose|j: int|
                        0 <= j < self.entries@.len() && (#[trigger] self.entries@[j]).0 == k;
                    assert(r@[j] == k);
                }
            }
        }
        r
    }
}

/// The amount under a key, zero where there is none.
pub open spec fn amount_of<K>(amounts: Map<K, u64>, key: K) -> u64 {
    if amounts.contains_key(key) {
        amounts[key]
    } else {
        0
    }
}

/// The amounts with the one under the key replaced; a key without an amount is not kept.
pub open spec fn with_amount<K>(amounts: Map<K, u64>, key: K, amount: u64) -> Map<K, u64> {
    if amount == 0 {
        amounts.remove(key)
    } else {
        amounts.insert(key, amount)
    }
}

/// No key is kept with a zero amount.
pub open spec fn no_zero<K>(amounts: Map<K, u64>) -> bool {
    forall|k: K| #[trigger] amounts.contains_key(k) ==> amounts[k] != 0
}

/// The sum of all amounts.
pub open spec fn sum_of<K>(amounts: Map<K, u64>) -> int
    decreases amounts.dom().len(),
    when amounts.dom().finite()
{
    if amounts.dom().len() == 0 {
        0
    } else {
        let k = amounts.dom().choose();
        amounts[k] + sum_of(amounts.remove(k))
    }
}

/// An amount can be split off the sum.
pub proof fn lemma_sum_remove<K>(amounts: Map<K, u64>, key: K)
    requires
        amounts.dom().finite(),
        amounts.contains_key(key),
    ensures
        sum_of(amounts) == amounts[key] + sum_of(amounts.remove(key)),
    decreases amounts.dom().len(),
{
    let c = amounts.dom().choose();
    if c != key {
        let less = amounts.remove(c);
        lemma_sum_remove(less, key);
        lemma_sum_remove(amounts.remove(key), c);
        assert(less.remove(key) =~= amounts.remove(key).remove(c));
    }
}

/// A sum is not negative, and no less than each of its amounts.
pub proof fn lemma_sum_bound<K>(amounts: Map<K, u64>, key: K)
    requires
        amounts.dom().finite(),
    ensures
        sum_of(amounts) >= amount_of(amounts, key),
        sum_of(amounts) >= 0,
    decreases amounts.dom().len(),
{
    if amounts.contains_key(key) {
        lemma_sum_remove(amounts, key);
        lemma_sum_bound(amounts.remove(key), key);
    } else if amounts.dom().len() != 0 {
        let c = amounts.dom().choose();
        lemma_sum_remove(amounts, c);
        lemma_sum_bound(amounts.remove(c), c);
    }
}

/// Replacing an amount changes the sum by the difference.
pub proof fn lemma_sum_with<K>(amounts: Map<K, u64>, key: K, amount: u64)
    requires
        amounts.dom().finite(),
    ensures
        with_amount(amounts, key, amount).dom().finite(),
        sum_of(with_amount(amounts, key, amount)) == sum_of(amounts) - amount_of(amounts, key)
            + amount,
        amount_of(with_amount(amounts, key, amount), key) == amount,
        forall|k: K|
            k != key ==> #[trigger] amount_of(with_amount(amounts, key, amount), k) == amount_of(
                amounts,
                k,
            ),
{
    let base = amounts.remove(key);
    if amounts.contains_key(key) {
        lemma_sum_remove(amounts, key);
    } else {
        assert(base =~= amounts);
    }
    if amount != 0 {
        let after = amounts.insert(key, amount);
        lemma_sum_remove(after, key);
        assert(after.remove(key) =~= base);
    }
}

/// Amounts by key, zero by default. Keys without an amount are not kept.
pub struct Amounts<K> {
    entries: StorageMap<K, u64>,
}

impl<K> View for Amounts<K> {
    type V = Map<K, u64>;

    closed spec fn view(&self) -> Map<K, u64> {
        self.entries@
    }
}

impl<K> Amounts<K> {
    #[verifier::type_invariant]
    spec fn well_formed(self) -> bool {
        no_zero(self.entries@) && self.entries@.dom().finite()
    }
}

impl<K: StorageKey> Amounts<K> {
    /// The map is finite.
    pub proof fn lemma_view_finite(&self)
        ensures
            self@.dom().finite(),
    {
        self.entries.lemma_view_finite();
    }

    /// No amounts at all.
    pub fn new() -> (r: Self)
        ensures
            r@ == Map::<K, u64>::empty(),
    {
        Amounts { entries: StorageMap::new() }
    }

    /// The amount under the key.
    pub fn get(&self, key: &K) -> (r: u64)
        ensures
            r == amount_of(self@, *key),
            no_zero(self@),
            self@.dom().finite(),
    {
        proof {
            use_type_invariant(self);
        }
        match self.entries.get(key) {
            Some(v) => *v,
            None => 0,
        }
    }

    /// Replace the amount under the key.
    pub fn set(&mut self, key: K, amount: u64)
        ensures
            final(self)@ == with_amount(old(self)@, key, amount),
    {
        proof {
            use_type_invariant(&*self);
        }
        let mut entries: StorageMap<K, u64> = StorageMap::new();
        std::mem::swap(&mut entries, &mut self.entries);
        if amount == 0 {
            entries.remove(&key);
        } else {
            entries.insert(key, amount);
        }
        self.entries = entries;
    }
}

} // verus!
