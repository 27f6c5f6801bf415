//! A cache of charged entries, split into shards that each evict their least recently
//! used entries once over capacity, sparing entries whose handles are still held.
use std::collections::hash_map::RandomState;
use std::hash::BuildHasher;
use std::sync::Arc;
use crate::util::bytes::bytes_equal;
use crate::util::hash::{hash, hash_of};
use vstd::prelude::*;
use vstd::utf8::encode_utf8;

verus! {

// ---------------------------------------------------------------------------
// Keys
// ---------------------------------------------------------------------------
/// A cache key, compared and hashed by its bytes.
pub trait CacheKey {
    /// The key's bytes.
    spec fn key_view(&self) -> Seq<u8>;

    fn key_bytes(&self) -> (r: &[u8])
        ensures
            r@ == self.key_view(),
    ;
}

impl CacheKey for Vec<u8> {
    open spec fn key_view(&self) -> Seq<u8> {
        self@
    }

    fn key_bytes(&self) -> (r: &[u8]) {
        self.as_slice()
    }
}

impl CacheKey for String {
    /// The UTF-8 bytes of the text.
    open spec fn key_view(&self) -> Seq<u8> {
        encode_utf8(self@)
    }

    fn key_bytes(&self) -> (r: &[u8]) {
        self.as_str().as_bytes()
    }
}

// ---------------------------------------------------------------------------
// Handles
// ---------------------------------------------------------------------------
/// What a cache entry holds.
pub struct HandleInner<K, V> {
    key: K,
    value: Arc<V>,
    charge: usize,
}

/// A shared reference to a cache entry. While a handle is held, the entry is not evicted.
pub struct LruHandle<K, V>(Arc<HandleInner<K, V>>);

/// `Arc::clone`: another pointer to the same value.
#[verifier::external_body]
fn share<T>(a: &Arc<T>) -> (r: Arc<T>)
    ensures
        r == *a,
{
    Arc::clone(a)
}

/// `Arc::strong_count`: how many pointers to the value are alive; at least the one
/// passed. How many others there are depends on what the rest of the program holds.
#[verifier::external_body]
fn strong_count<T>(a: &Arc<T>) -> (r: usize)
    ensures
        r >= 1,
{
    Arc::strong_count(a)
}

impl<K: CacheKey, V> LruHandle<K, V> {
    /// The bytes of the entry's key.
    pub closed spec fn spec_key(&self) -> Seq<u8> {
        self.0.key.key_view()
    }

    /// The entry's value.
    pub closed spec fn spec_value(&self) -> V {
        *self.0.value
    }

    /// The entry's charge.
    pub closed spec fn spec_charge(&self) -> nat {
        self.0.charge as nat
    }

    pub fn key(&self) -> (r: &K)
        ensures
            r.key_view() == self.spec_key(),
    {
        &self.0.key
    }

    pub fn value(&self) -> (r: Arc<V>)
        ensures
            *r == self.spec_value(),
    {
        share(&self.0.value)
    }

    pub fn charge(&self) -> (r: usize)
        ensures
            r == self.spec_charge(),
    {
        self.0.charge
    }
}

// ---------------------------------------------------------------------------
// One shard
// ---------------------------------------------------------------------------
/// An entry as the model sees it: key bytes, value, charge.
pub type EntryView<V> = (Seq<u8>, V, nat);

/// The total charge of `entries`.
pub open spec fn charge_sum<V>(entries: Seq<EntryView<V>>) -> nat
    decreases entries.len(),
{
    if entries.len() == 0 {
        0
    } else {
        charge_sum(entries.drop_last()) + entries.last().2
    }
}

/// No key occurs twice.
pub open spec fn keys_distinct<V>(entries: Seq<EntryView<V>>) -> bool {
    forall|i: int, j: int| 0 <= i < j < entries.len() ==> entries[i].0 != entries[j].0
}

/// The position of `key`, if it is there.
pub open spec fn key_index<V>(entries: Seq<EntryView<V>>, key: Seq<u8>) -> Option<int> {
    if exists|i: int| 0 <= i < entries.len() && entries[i].0 == key {
        Some(choose|i: int| 0 <= i < entries.len() && entries[i].0 == key)
    } else {
        None
    }
}

/// `entries` without the entry of `key`.
pub open spec fn without_key<V>(entries: Seq<EntryView<V>>, key: Seq<u8>) -> Seq<EntryView<V>> {
    match key_index(entries, key) {
        Some(i) => entries.remove(i),
        None => entries,
    }
}

/// The oldest `k` of `entries` were evicted, each while the entries from it on were over
/// `capacity`, and never the newest.
pub open spec fn evicted_over_capacity<V>(entries: Seq<EntryView<V>>, k: int, capacity: nat) -> bool {
    &&& 0 <= k < entries.len()
    &&& forall|i: int| 0 <= i < k ==> #[trigger] charge_sum(entries.subrange(i, entries.len() as int)) > capacity
}

/// What inserting `(kv, v, charge)` into a shard of capacity `capacity` holding `before`
/// may leave: the entries without `kv`, the new one added last, then the oldest ones
/// evicted, each only while the entries from it on are over capacity, and never the new
/// one, which its handle holds.
pub open spec fn inserted_entries<V>(
    before: Seq<EntryView<V>>,
    after: Seq<EntryView<V>>,
    kv: Seq<u8>,
    v: V,
    charge: nat,
    capacity: nat,
) -> bool {
    let added = without_key(before, kv).push((kv, v, charge));
    exists|k: int|
        #[trigger] evicted_over_capacity(added, k, capacity) && after == added.subrange(k, added.len() as int)
}

/// What is left of `added` once its oldest entries are evicted over capacity always ends
/// with its newest entry, and is all of it when that fits the capacity.
pub proof fn lemma_evicted_suffix<V>(added: Seq<EntryView<V>>, after: Seq<EntryView<V>>, capacity: nat)
    requires
        exists|k: int|
            #[trigger] evicted_over_capacity(added, k, capacity) && after == added.subrange(k, added.len() as int),
    ensures
        after.len() >= 1,
        after.last() == added.last(),
        charge_sum(added) <= capacity ==> after == added,
{
    let k = choose|k: int| #[trigger] evicted_over_capacity(added, k, capacity) && after == added.subrange(k, added.len() as int);
    assert(after.last() == added.last());
    if charge_sum(added) <= capacity && k > 0 {
        assert(added.subrange(0, added.len() as int) =~= added);
        assert(charge_sum(added.subrange(0, added.len() as int)) > capacity);
    }
    if k == 0 {
        assert(added.subrange(0, added.len() as int) =~= added);
    }
}

/// Law: right after an insert of `kv` the shard holds `kv`, and erasing it there leaves
/// no entry for `kv`.
pub proof fn lemma_erase_after_insert<V>(
    before: Seq<EntryView<V>>,
    after: Seq<EntryView<V>>,
    kv: Seq<u8>,
    v: V,
    charge: nat,
    capacity: nat,
)
    requires
        inserted_entries(before, after, kv, v, charge, capacity),
        keys_distinct(after),
    ensures
        key_index(after, kv) is Some,
        key_index(without_key(after, kv), kv) is None,
{
    let added = without_key(before, kv).push((kv, v, charge));
    lemma_evicted_suffix(added, after, capacity);
    assert(after[after.len() - 1].0 == kv);
    let i = key_index(after, kv)->0;
    let rest = after.remove(i);
    assert forall|j: int| 0 <= j < rest.len() implies rest[j].0 != kv by {
        if j < i {
            assert(rest[j] == after[j]);
        } else {
            assert(rest[j] == after[j + 1]);
        }
    }
}

/// What looking `kv` up in a shard holding `before` leaves and finds: absent, nothing
/// changes and nothing is found; present, its entry is found and becomes the newest.
pub open spec fn looked_up<V>(
    before: Seq<EntryView<V>>,
    after: Seq<EntryView<V>>,
    kv: Seq<u8>,
    found: Option<EntryView<V>>,
) -> bool {
    match key_index(before, kv) {
        None => found is None && after == before,
        Some(i) => found == Some(before[i]) && after == before.remove(i).push(before[i]),
    }
}

/// The entries of `entries` whose place in `mask` is `true`, in their order.
pub open spec fn kept<V>(entries: Seq<EntryView<V>>, mask: Seq<bool>) -> Seq<EntryView<V>>
    decreases entries.len(),
{
    if entries.len() == 0 || mask.len() == 0 {
        Seq::empty()
    } else {
        let rest = kept(entries.drop_last(), mask.drop_last());
        if mask.last() {
            rest.push(entries.last())
        } else {
            rest
        }
    }
}

/// `after` is `before` with some entries taken out, the others in their order.
pub open spec fn pruned_from<V>(before: Seq<EntryView<V>>, after: Seq<EntryView<V>>) -> bool {
    exists|mask: Seq<bool>| mask.len() == before.len() && after == kept(before, mask)
}

/// Keeping some entries keeps no more charge than there was.
proof fn lemma_charge_sum_kept<V>(entries: Seq<EntryView<V>>, mask: Seq<bool>)
    ensures
        charge_sum(kept(entries, mask)) <= charge_sum(entries),
    decreases entries.len(),
{
    if entries.len() > 0 && mask.len() > 0 {
        lemma_charge_sum_kept(entries.drop_last(), mask.drop_last());
        let rest = kept(entries.drop_last(), mask.drop_last());
        if mask.last() {
            assert(rest.push(entries.last()).drop_last() =~= rest);
        }
    }
}

pub proof fn lemma_charge_sum_remove<V>(entries: Seq<EntryView<V>>, i: int)
    requires
        0 <= i < entries.len(),
    ensures
        charge_sum(entries.remove(i)) + entries[i].2 == charge_sum(entries),
    decreases entries.len(),
{
    if i < entries.len() - 1 {
        let init = entries.drop_last();
        lemma_charge_sum_remove(init, i);
        assert(entries.remove(i).drop_last() =~= init.remove(i));
        assert(entries.remove(i).last() == entries.last());
    } else {
        assert(entries.remove(i) =~= entries.drop_last());
    }
}

/// One shard: its entries from least to most recently used, their total charge, and the
/// charge above which it evicts.
pub struct LruCacheShard<K, V> {
    entries: Vec<Arc<HandleInner<K, V>>>,
    usage: usize,
    capacity: usize,
}

impl<K: CacheKey, V> LruCacheShard<K, V> {
    /// The entries, least recently used first.
    pub closed spec fn spec_entries(&self) -> Seq<EntryView<V>> {
        Seq::new(
            self.entries@.len(),
            |i: int| (self.entries@[i].key.key_view(), *self.entries@[i].value, self.entries@[i].charge as nat),
        )
    }

    /// The charge above which the shard evicts.
    pub closed spec fn spec_capacity(&self) -> nat {
        self.capacity as nat
    }

    /// Keys are distinct and the usage is the total charge.
    pub closed spec fn wf(&self) -> bool {
        &&& keys_distinct(self.spec_entries())
        &&& self.usage == charge_sum(self.spec_entries())
    }

    /// An empty shard.
    pub fn new(capacity: usize) -> (r: Self)
        ensures
            r.wf(),
            r.spec_entries() == Seq::<EntryView<V>>::empty(),
            r.spec_capacity() == capacity,
    {
        let r = LruCacheShard { entries: Vec::new(), usage: 0, capacity };
        assert(r.spec_entries() =~= Seq::<EntryView<V>>::empty());
        r
    }

    /// The position of `key` among the entries.
    fn find(&self, key: &[u8]) -> (r: Option<usize>)
        requires
            self.wf(),
        ensures
            match r {
                Some(i) => key_index(self.spec_entries(), key@) == Some(i as int),
                None => key_index(self.spec_entries(), key@) is None,
            },
    {
        let ghost es = self.spec_entries();
        let mut i: usize = 0;
        while i < self.entries.len()
            invariant
                i <= self.entries@.len(),
                es == self.spec_entries(),
                keys_distinct(es),
                forall|j: int| 0 <= j < i ==> es[j].0 != key@,
            decreases self.entries@.len() - i,
        {
            let k = self.entries[i].key.key_bytes();
            if bytes_equal(k, key) {
                proof {
                    assert(es[i as int].0 == key@);
                    let c = choose|j: int| 0 <= j < es.len() && es[j].0 == key@;
                    assert(keys_distinct(es));
                    assert(c == i) by {
                        if c < i {
                            assert(es[c].0 != es[i as int].0);
                        } else if c > i {
                            assert(es[i as int].0 != es[c].0);
                        }
                    }
                }
                return Some(i);
            }
            i = i + 1;
        }
        None
    }

    /// Removes the entry at `i`, keeping the usage the total charge.
    fn remove_at(&mut self, i: usize) -> (r: Arc<HandleInner<K, V>>)
        requires
            old(self).wf(),
            i < old(self).spec_entries().len(),
        ensures
            final(self).wf(),
            final(self).spec_entries() == old(self).spec_entries().remove(i as int),
            final(self).spec_capacity() == old(self).spec_capacity(),
            (r.key.key_view(), *r.value, r.charge as nat) == old(self).spec_entries()[i as int],
    {
        let ghost es = self.spec_entries();
        proof {
            lemma_charge_sum_remove(es, i as int);
        }
        let h = self.entries.remove(i);
        self.usage = self.usage - h.charge;
        proof {
            assert(self.spec_entries() =~= es.remove(i as int));
        }
        h
    }

    /// Evicts least recently used entries, oldest first, while the usage is over capacity
    /// and the oldest is not held by a handle.
    fn evict_oldest_unused(&mut self)
        requires
            old(self).wf(),
            old(self).spec_entries().len() >= 1,
        ensures
            final(self).wf(),
            final(self).spec_capacity() == old(self).spec_capacity(),
            exists|k: int|
                #[trigger] evicted_over_capacity(old(self).spec_entries(), k, old(self).spec_capacity())
                    && final(self).spec_entries() == old(self).spec_entries().subrange(
                    k,
                    old(self).spec_entries().len() as int,
                ),
    {
        let ghost es0 = self.spec_entries();
        let ghost mut k: int = 0;
        proof {
            assert(es0.subrange(0, es0.len() as int) =~= es0);
        }
        loop
            invariant
                self.wf(),
                self.capacity == old(self).capacity,
                es0 == old(self).spec_entries(),
                evicted_over_capacity(es0, k, self.capacity as nat),
                self.spec_entries() == es0.subrange(k, es0.len() as int),
            decreases self.entries@.len(),
        {
            if self.usage <= self.capacity {
                break;
            }
            // The newest entry is held by the handle an insert returns, so only older
            // ones are candidates.
            if self.entries.len() <= 1 {
                break;
            }
            if strong_count(&self.entries[0]) != 1 {
                break;
            }
            let ghost before = self.spec_entries();
            self.remove_at(0);
            proof {
                assert(before.remove(0) =~= es0.subrange(k + 1, es0.len() as int));
                assert(charge_sum(es0.subrange(k, es0.len() as int)) > self.capacity);
                assert forall|i: int| 0 <= i < k + 1 implies #[trigger] charge_sum(es0.subrange(i, es0.len() as int))
                    > self.capacity by {
                    if i < k {
                        assert(evicted_over_capacity(es0, k, self.capacity as nat));
                    }
                }
                k = k + 1;
            }
        }
    }

    /// Inserts `key` with `value` and `charge` as the most recently used entry, replacing
    /// any entry with the same key, then evicts unused entries, oldest first, while over
    /// capacity. Returns a handle to the new entry.
    pub fn insert(&mut self, key: K, value: Arc<V>, charge: usize) -> (r: LruHandle<K, V>)
        requires
            old(self).wf(),
            charge_sum(old(self).spec_entries()) + charge <= usize::MAX,
        ensures
            final(self).wf(),
            final(self).spec_capacity() == old(self).spec_capacity(),
            r.spec_key() == key.key_view(),
            r.spec_value() == *value,
            r.spec_charge() == charge,
            inserted_entries(
                old(self).spec_entries(),
                final(self).spec_entries(),
                key.key_view(),
                *value,
                charge as nat,
                old(self).spec_capacity(),
            ),
            final(self).spec_entries().last() == (key.key_view(), *value, charge as nat),
            charge_sum(
                without_key(old(self).spec_entries(), key.key_view()).push((key.key_view(), *value, charge as nat)),
            ) <= old(self).spec_capacity() ==> final(self).spec_entries() == without_key(
                old(self).spec_entries(),
                key.key_view(),
            ).push((key.key_view(), *value, charge as nat)),
    {
        let ghost kv = key.key_view();
        let ghost es0 = self.spec_entries();
        let found = self.find(key.key_bytes());
        match found {
            Some(i) => {
                self.remove_at(i);
            },
            None => {},
        }
        let ghost es1 = self.spec_entries();
        proof {
            assert(es1 == without_key(es0, kv));
            if let Some(i) = key_index(es0, kv) {
                lemma_charge_sum_remove(es0, i);
            }
        }
        let handle_inner = Arc::new(HandleInner { key, value, charge });
        let handle = share(&handle_inner);
        self.entries.push(handle_inner);
        self.usage = self.usage + charge;
        proof {
            let es2 = self.spec_entries();
            assert(es2 =~= es1.push((kv, *value, charge as nat)));
            assert(es2.drop_last() =~= es1);
            assert forall|a: int, b: int| 0 <= a < b < es2.len() implies es2[a].0 != es2[b].0 by {
                if b == es2.len() - 1 {
                    assert(es1 == without_key(es0, kv));
                    if key_index(es0, kv) is None {
                        assert(es1 == es0);
                        assert(es1[a].0 != kv);
                    } else {
                        let i = key_index(es0, kv)->0;
                        assert(es0[i].0 == kv);
                        assert(es1 == es0.remove(i));
                        if a < i {
                            assert(es1[a] == es0[a]);
                        } else {
                            assert(es1[a] == es0[a + 1]);
                        }
                    }
                }
            }
        }
        let ghost es2 = self.spec_entries();
        self.evict_oldest_unused();
        proof {
            lemma_evicted_suffix(es2, self.spec_entries(), self.capacity as nat);
        }
        LruHandle(handle)
    }

    /// The handle of `key`'s entry, which becomes the most recently used; `None` if the
    /// key is absent.
    pub fn lookup(&mut self, key: &K) -> (r: Option<LruHandle<K, V>>)
        requires
            old(self).wf(),
        ensures
            final(self).wf(),
            final(self).spec_capacity() == old(self).spec_capacity(),
            match key_index(old(self).spec_entries(), key.key_view()) {
                None => r is None && final(self).spec_entries() == old(self).spec_entries(),
                Some(i) => r matches Some(h) && (h.spec_key(), h.spec_value(), h.spec_charge())
                    == old(self).spec_entries()[i] && final(self).spec_entries()
                    == old(self).spec_entries().remove(i).push(old(self).spec_entries()[i]),
            },
    {
        let ghost es0 = self.spec_entries();
        match self.find(key.key_bytes()) {
            None => None,
            Some(i) => {
                proof {
                    lemma_charge_sum_remove(es0, i as int);
                }
                let h = self.entries.remove(i);
                let out = share(&h);
                self.entries.push(h);
                proof {
                    let es = self.spec_entries();
                    assert(es =~= es0.remove(i as int).push(es0[i as int]));
                    assert(es.drop_last() =~= es0.remove(i as int));
                    assert forall|a: int, b: int| 0 <= a < b < es.len() implies es[a].0 != es[b].0 by {
                        let ia = if a < i { a } else { a + 1 };
                        let ib = if b == es.len() - 1 { i as int } else if b < i { b } else { b + 1 };
                        assert(es[a] == es0[ia]);
                        assert(es[b] == es0[ib]);
                    }
                }
                Some(LruHandle(out))
            },
        }
    }

    /// Removes `key`'s entry; whether there was one.
    pub fn erase(&mut self, key: &K) -> (r: bool)
        requires
            old(self).wf(),
        ensures
            final(self).wf(),
            final(self).spec_capacity() == old(self).spec_capacity(),
            r == key_index(old(self).spec_entries(), key.key_view()) is Some,
            final(self).spec_entries() == without_key(old(self).spec_entries(), key.key_view()),
    {
        match self.find(key.key_bytes()) {
            None => false,
            Some(i) => {
                self.remove_at(i);
                true
            },
        }
    }

    /// Removes every entry that no handle holds; the others stay, in their order.
    pub fn prune(&mut self)
        requires
            old(self).wf(),
        ensures
            final(self).wf(),
            final(self).spec_capacity() == old(self).spec_capacity(),
            pruned_from(old(self).spec_entries(), final(self).spec_entries()),
    {
        let ghost es0 = self.spec_entries();
        let ghost mut mask: Seq<bool> = Seq::empty();
        let mut i: usize = 0;
        proof {
            assert(es0.subrange(0, 0) =~= Seq::<EntryView<V>>::empty());
            assert(es0.subrange(0, es0.len() as int) =~= es0);
        }
        while i < self.entries.len()
            invariant
                self.wf(),
                self.capacity == old(self).capacity,
                es0 == old(self).spec_entries(),
                mask.len() <= es0.len(),
                i == kept(es0.subrange(0, mask.len() as int), mask).len(),
                self.spec_entries() == kept(es0.subrange(0, mask.len() as int), mask).add(
                    es0.subrange(mask.len() as int, es0.len() as int),
                ),
            decreases es0.len() - mask.len(),
        {
            let ghost j = mask.len() as int;
            let ghost pre = kept(es0.subrange(0, j), mask);
            let ghost rest = es0.subrange(j, es0.len() as int);
            let ghost m0 = mask;
            proof {
                assert(self.spec_entries()[i as int] == rest[0]);
                assert(es0.subrange(0, j + 1).drop_last() =~= es0.subrange(0, j));
                assert(es0.subrange(0, j + 1).last() == es0[j]);
            }
            if strong_count(&self.entries[i]) == 1 {
                self.remove_at(i);
                proof {
                    mask = mask.push(false);
                    assert(mask.drop_last() =~= m0);
                    assert(kept(es0.subrange(0, j + 1), mask) == pre);
                    assert(pre.add(rest).remove(i as int) =~= pre.add(es0.subrange(j + 1, es0.len() as int)));
                }
            } else {
                i = i + 1;
                proof {
                    mask = mask.push(true);
                    assert(mask.drop_last() =~= m0);
                    assert(kept(es0.subrange(0, j + 1), mask) == pre.push(es0[j]));
                    assert(pre.add(rest) =~= pre.push(es0[j]).add(es0.subrange(j + 1, es0.len() as int)));
                }
            }
        }
        proof {
            assert(es0.subrange(0, mask.len() as int) =~= es0);
            assert(self.spec_entries() =~= kept(es0, mask));
        }
    }

    /// The total charge of the entries.
    pub fn total_charge(&self) -> (r: usize)
        requires
            self.wf(),
        ensures
            r == charge_sum(self.spec_entries()),
    {
        self.usage
    }

    /// The charge above which the shard evicts.
    pub fn capacity(&self) -> (r: usize)
        ensures
            r == self.spec_capacity(),
    {
        self.capacity
    }
}

// ---------------------------------------------------------------------------
// The sharded cache
// ---------------------------------------------------------------------------
/// A key/value cache whose entries are charged against a capacity.
pub trait Cache<K, V> {
    /// The cache's internal state is consistent.
    spec fn inv(&self) -> bool;

    /// The total charge of the entries.
    spec fn spec_total_charge(&self) -> nat;

    /// Inserts `key` with `value` and `charge`, replacing any entry with that key, and
    /// returns a handle to the new entry.
    fn insert(&mut self, key: K, value: V, charge: usize) -> (r: LruHandle<K, V>)
        requires
            old(self).inv(),
            old(self).spec_total_charge() + charge <= usize::MAX,
        ensures
            final(self).inv(),
    ;

    /// The handle of `key`'s entry, if there is one.
    fn lookup(&mut self, key: &K) -> (r: Option<LruHandle<K, V>>)
        requires
            old(self).inv(),
        ensures
            final(self).inv(),
    ;

    /// Removes `key`'s entry; whether there was one.
    fn erase(&mut self, key: &K) -> (r: bool)
        requires
            old(self).inv(),
        ensures
            final(self).inv(),
    ;

    /// A fresh number, for callers that share the cache to tell their keys apart.
    fn new_id(&mut self) -> (r: u64)
        requires
            old(self).inv(),
        ensures
            final(self).inv(),
    ;

    /// The total charge of the entries.
    fn total_charge(&self) -> (r: usize)
        requires
            self.inv(),
        ensures
            r == self.spec_total_charge(),
    ;

    /// The total capacity.
    fn capacity(&self) -> usize
        requires
            self.inv(),
    ;

    /// Removes the entries no handle holds. Does nothing unless the cache says otherwise.
    fn prune(&mut self)
        requires
            old(self).inv(),
        ensures
            final(self).inv(),
    {
    }
}

/// `RandomState::new`: a hasher builder with keys drawn at random.
#[verifier::external_body]
fn random_state() -> RandomState {
    RandomState::new()
}

/// `BuildHasher::hash_one` over a key's bytes. The builder may be seeded at random, so
/// nothing is said of the result.
#[verifier::external_body]
fn hash_bytes<S: BuildHasher>(hasher: &S, bytes: &[u8]) -> u64 {
    hasher.hash_one(bytes)
}

/// The total charge of all shards.
pub open spec fn shards_charge<K: CacheKey, V>(shards: Seq<LruCacheShard<K, V>>) -> nat
    decreases shards.len(),
{
    if shards.len() == 0 {
        0
    } else {
        shards_charge(shards.drop_last()) + charge_sum(shards.last().spec_entries())
    }
}

/// The capacity of each of `num_shards` shards sharing `total_capacity`, rounded up.
pub open spec fn per_shard_capacity(total_capacity: nat, num_shards: nat) -> nat {
    ((total_capacity + num_shards - 1) / (num_shards as int)) as nat
}

/// A cache split into shards by a hash of the key, seeded from the cache's hasher.
pub struct ShardedLruCache<K, V, S> {
    shards: Vec<LruCacheShard<K, V>>,
    num_shards: usize,
    id_counter: u64,
    hasher: S,
    seed: u32,
}

/// The number of shards of a cache made by `new`.
pub const DEFAULT_NUM_SHARDS: usize = 16;

impl<K: CacheKey, V> ShardedLruCache<K, V, RandomState> {
    /// A cache of `total_capacity` split into 16 shards.
    pub fn new(total_capacity: usize) -> (r: Self)
        requires
            total_capacity + DEFAULT_NUM_SHARDS - 1 <= usize::MAX,
        ensures
            r.wf(),
            r.spec_shards().len() == DEFAULT_NUM_SHARDS,
            r.spec_total_capacity() == DEFAULT_NUM_SHARDS * per_shard_capacity(
                total_capacity as nat,
                DEFAULT_NUM_SHARDS as nat,
            ),
            r.spec_total_charge() == 0,
            r.spec_id_counter() == 0,
    {
        Self::with_hasher_and_shards(total_capacity, DEFAULT_NUM_SHARDS, random_state())
    }

    /// A cache of `total_capacity` split into `num_shards` shards.
    pub fn with_shards(total_capacity: usize, num_shards: usize) -> (r: Self)
        requires
            num_shards > 0,
            total_capacity + num_shards - 1 <= usize::MAX,
        ensures
            r.wf(),
            r.spec_shards().len() == num_shards,
            r.spec_total_capacity() == num_shards * per_shard_capacity(
                total_capacity as nat,
                num_shards as nat,
            ),
            r.spec_total_charge() == 0,
            r.spec_id_counter() == 0,
    {
        Self::with_hasher_and_shards(total_capacity, num_shards, random_state())
    }
}

impl<K: CacheKey, V, S: BuildHasher> ShardedLruCache<K, V, S> {
    /// The shards.
    pub closed spec fn spec_shards(&self) -> Seq<LruCacheShard<K, V>> {
        self.shards@
    }

    /// The total charge of the entries.
    pub closed spec fn spec_total_charge(&self) -> nat {
        shards_charge(self.shards@)
    }

    /// The next number `new_id` hands out.
    pub closed spec fn spec_id_counter(&self) -> u64 {
        self.id_counter
    }

    /// The seed the keys' hashes are taken with, drawn from the hasher when the cache was
    /// made.
    pub closed spec fn spec_seed(&self) -> u32 {
        self.seed
    }

    /// The shard that holds the key with bytes `kv`: the key's hash under the cache's seed,
    /// modulo the number of shards.
    pub open spec fn shard_of(&self, kv: Seq<u8>) -> int {
        (hash_of(kv, self.spec_seed()) as int) % (self.spec_shards().len() as int)
    }

    /// The total capacity.
    pub closed spec fn spec_total_capacity(&self) -> nat {
        (self.num_shards * self.shards@[0].spec_capacity()) as nat
    }

    /// There is at least one shard, every shard is consistent and has the same capacity,
    /// and the totals fit in a `usize`.
    pub closed spec fn wf(&self) -> bool {
        &&& self.num_shards == self.shards@.len()
        &&& self.num_shards > 0
        &&& forall|i: int| 0 <= i < self.shards@.len() ==> (#[trigger] self.shards@[i]).wf()
        &&& forall|i: int|
            0 <= i < self.shards@.len() ==> (#[trigger] self.shards@[i]).spec_capacity()
                == self.shards@[0].spec_capacity()
        &&& self.num_shards * self.shards@[0].spec_capacity() <= usize::MAX
        &&& shards_charge(self.shards@) <= usize::MAX
    }

    /// A cache of `total_capacity` split into `num_shards` shards of equal capacity,
    /// rounded up, with keys hashed by `hasher`.
    pub fn with_hasher_and_shards(total_capacity: usize, num_shards: usize, hasher: S) -> (r: Self)
        requires
            num_shards > 0,
            total_capacity + num_shards - 1 <= usize::MAX,
        ensures
            r.wf(),
            r.spec_shards().len() == num_shards,
            r.spec_total_capacity() == num_shards * per_shard_capacity(
                total_capacity as nat,
                num_shards as nat,
            ),
            r.spec_total_charge() == 0,
            r.spec_id_counter() == 0,
    {
        let per_shard_capacity = (total_capacity + (num_shards - 1)) / num_shards;
        assert(num_shards * per_shard_capacity <= total_capacity + num_shards - 1) by (nonlinear_arith)
            requires
                per_shard_capacity == (total_capacity + num_shards - 1) / (num_shards as int),
                num_shards > 0,
        ;
        let mut shards: Vec<LruCacheShard<K, V>> = Vec::new();
        let mut i: usize = 0;
        while i < num_shards
            invariant
                i <= num_shards,
                shards@.len() == i,
                forall|j: int| 0 <= j < i ==> (#[trigger] shards@[j]).wf(),
                forall|j: int| 0 <= j < i ==> (#[trigger] shards@[j]).spec_capacity() == per_shard_capacity,
                forall|j: int| 0 <= j < i ==> (#[trigger] shards@[j]).spec_entries().len() == 0,
                shards_charge(shards@) == 0,
            decreases num_shards - i,
        {
            let ghost before = shards@;
            shards.push(LruCacheShard::new(per_shard_capacity));
            proof {
                assert(shards@.drop_last() =~= before);
            }
            i = i + 1;
        }
        let drawn = hash_bytes(&hasher, &[]);
        let seed = #[verifier::truncate] (drawn as u32);
        ShardedLruCache { shards, num_shards, id_counter: 0, hasher, seed }
    }

    /// The shard that holds `key`.
    fn shard_index(&self, key: &K) -> (r: usize)
        requires
            self.wf(),
        ensures
            r < self.spec_shards().len(),
            r == self.shard_of(key.key_view()),
    {
        let h = hash(key.key_bytes(), self.seed);
        shard_for_hash(h as u64, self.num_shards)
    }
}

/// The shard, of `num_shards`, that a key hashing to `h` goes to: the hash cut to the
/// machine word, modulo the number of shards.
pub fn shard_for_hash(h: u64, num_shards: usize) -> (r: usize)
    requires
        num_shards > 0,
    ensures
        r == (h as usize) % num_shards,
{
    (#[verifier::truncate] (h as usize)) % num_shards
}

/// Replacing shard `i` changes the total charge by the difference of its charges.
proof fn lemma_shards_charge_update<K: CacheKey, V>(
    shards: Seq<LruCacheShard<K, V>>,
    i: int,
    s: LruCacheShard<K, V>,
)
    requires
        0 <= i < shards.len(),
    ensures
        shards_charge(shards.update(i, s)) + charge_sum(shards[i].spec_entries()) == shards_charge(shards)
            + charge_sum(s.spec_entries()),
        charge_sum(shards[i].spec_entries()) <= shards_charge(shards),
    decreases shards.len(),
{
    if i < shards.len() - 1 {
        lemma_shards_charge_update(shards.drop_last(), i, s);
        assert(shards.update(i, s).drop_last() =~= shards.drop_last().update(i, s));
    } else {
        assert(shards.update(i, s).drop_last() =~= shards.drop_last());
    }
}

impl<K: CacheKey, V, S: BuildHasher> Cache<K, V> for ShardedLruCache<K, V, S> {
    open spec fn inv(&self) -> bool {
        self.wf()
    }

    open spec fn spec_total_charge(&self) -> nat {
        ShardedLruCache::<K, V, S>::spec_total_charge(self)
    }

    /// Inserts into the key's shard; the other shards are left as they were.
    fn insert(&mut self, key: K, value: V, charge: usize) -> (r: LruHandle<K, V>)
        ensures
            r.spec_key() == key.key_view(),
            r.spec_value() == value,
            r.spec_charge() == charge,
            final(self).spec_shards().len() == old(self).spec_shards().len(),
            final(self).spec_total_capacity() == old(self).spec_total_capacity(),
            final(self).spec_seed() == old(self).spec_seed(),
            ({
                let i = old(self).shard_of(key.key_view());
                &&& 0 <= i < old(self).spec_shards().len()
                &&& final(self).spec_shards() == old(self).spec_shards().update(i, final(self).spec_shards()[i])
                &&& inserted_entries(
                    old(self).spec_shards()[i].spec_entries(),
                    final(self).spec_shards()[i].spec_entries(),
                    key.key_view(),
                    value,
                    charge as nat,
                    old(self).spec_shards()[i].spec_capacity(),
                )
            }),
    {
        let idx = self.shard_index(&key);
        let ghost old_shards = self.shards@;
        proof {
            lemma_shards_charge_update(old_shards, idx as int, old_shards[idx as int]);
        }
        let ghost kv = key.key_view();
        let ghost v = value;
        let mut shard = self.shards.remove(idx);
        let h = shard.insert(key, Arc::new(value), charge);
        self.shards.insert(idx, shard);
        proof {
            assert(self.shards@ =~= old_shards.update(idx as int, shard));
            lemma_shards_charge_update(old_shards, idx as int, shard);
            lemma_insert_charge(old_shards[idx as int], shard, kv, v, charge);
            assert(self.spec_shards() == old_shards.update(idx as int, self.spec_shards()[idx as int]));
            assert(inserted_entries(
                old_shards[idx as int].spec_entries(),
                self.spec_shards()[idx as int].spec_entries(),
                kv,
                v,
                charge as nat,
                old_shards[idx as int].spec_capacity(),
            ));
        }
        h
    }

    /// Looks the key up in its shard, making its entry the most recently used there.
    fn lookup(&mut self, key: &K) -> (r: Option<LruHandle<K, V>>)
        ensures
            final(self).spec_total_charge() == old(self).spec_total_charge(),
            final(self).spec_total_capacity() == old(self).spec_total_capacity(),
            r matches Some(h) ==> h.spec_key() == key.key_view(),
            final(self).spec_seed() == old(self).spec_seed(),
            ({
                let i = old(self).shard_of(key.key_view());
                &&& 0 <= i < old(self).spec_shards().len()
                &&& final(self).spec_shards() == old(self).spec_shards().update(i, final(self).spec_shards()[i])
                &&& looked_up(
                    old(self).spec_shards()[i].spec_entries(),
                    final(self).spec_shards()[i].spec_entries(),
                    key.key_view(),
                    match r {
                        Some(h) => Some((h.spec_key(), h.spec_value(), h.spec_charge())),
                        None => None,
                    },
                )
            }),
    {
        let idx = self.shard_index(key);
        let ghost old_shards = self.shards@;
        let mut shard = self.shards.remove(idx);
        let r = shard.lookup(key);
        self.shards.insert(idx, shard);
        proof {
            assert(self.shards@ =~= old_shards.update(idx as int, shard));
            lemma_shards_charge_update(old_shards, idx as int, shard);
            let es0 = old_shards[idx as int].spec_entries();
            if let Some(i) = key_index(es0, key.key_view()) {
                lemma_charge_sum_remove(es0, i);
                assert(es0.remove(i).push(es0[i]).drop_last() =~= es0.remove(i));
                assert(es0[i].0 == key.key_view());
            }
            assert(self.spec_shards() == old_shards.update(idx as int, self.spec_shards()[idx as int]));
            assert(looked_up(
                es0,
                self.spec_shards()[idx as int].spec_entries(),
                key.key_view(),
                match r {
                    Some(h) => Some((h.spec_key(), h.spec_value(), h.spec_charge())),
                    None => None,
                },
            ));
        }
        r
    }

    /// Removes the key from its shard.
    fn erase(&mut self, key: &K) -> (r: bool)
        ensures
            final(self).spec_total_capacity() == old(self).spec_total_capacity(),
            final(self).spec_total_charge() <= old(self).spec_total_charge(),
            final(self).spec_seed() == old(self).spec_seed(),
            ({
                let i = old(self).shard_of(key.key_view());
                &&& 0 <= i < old(self).spec_shards().len()
                &&& final(self).spec_shards() == old(self).spec_shards().update(i, final(self).spec_shards()[i])
                &&& r == key_index(old(self).spec_shards()[i].spec_entries(), key.key_view()) is Some
                &&& final(self).spec_shards()[i].spec_entries() == without_key(
                    old(self).spec_shards()[i].spec_entries(),
                    key.key_view(),
                )
            }),
    {
        let idx = self.shard_index(key);
        let ghost old_shards = self.shards@;
        let mut shard = self.shards.remove(idx);
        let r = shard.erase(key);
        self.shards.insert(idx, shard);
        proof {
            assert(self.shards@ =~= old_shards.update(idx as int, shard));
            lemma_shards_charge_update(old_shards, idx as int, shard);
            let es0 = old_shards[idx as int].spec_entries();
            if let Some(i) = key_index(es0, key.key_view()) {
                lemma_charge_sum_remove(es0, i);
            }
            assert(self.spec_shards() == old_shards.update(idx as int, self.spec_shards()[idx as int]));
        }
        r
    }

    /// The next number, wrapping around.
    fn new_id(&mut self) -> (r: u64)
        ensures
            r == old(self).spec_id_counter(),
            final(self).spec_id_counter() == old(self).spec_id_counter().wrapping_add(1),
            final(self).spec_shards() == old(self).spec_shards(),
            final(self).spec_seed() == old(self).spec_seed(),
    {
        let id = self.id_counter;
        self.id_counter = self.id_counter.wrapping_add(1);
        id
    }

    /// The sum of the shards' charges.
    fn total_charge(&self) -> (r: usize) {
        let mut total: usize = 0;
        let mut i: usize = 0;
        while i < self.shards.len()
            invariant
                self.wf(),
                i <= self.shards@.len(),
                total == shards_charge(self.shards@.take(i as int)),
            decreases self.shards@.len() - i,
        {
            proof {
                assert(self.shards@.take(i + 1).drop_last() =~= self.shards@.take(i as int));
                lemma_shards_charge_prefix(self.shards@, i as int + 1);
            }
            total = total + self.shards[i].total_charge();
            i = i + 1;
        }
        proof {
            assert(self.shards@.take(i as int) =~= self.shards@);
        }
        total
    }

    /// The sum of the shards' capacities.
    fn capacity(&self) -> (r: usize)
        ensures
            r == self.spec_total_capacity(),
    {
        let mut total: usize = 0;
        let mut i: usize = 0;
        while i < self.shards.len()
            invariant
                self.wf(),
                i <= self.shards@.len(),
                total == i * self.shards@[0].spec_capacity(),
            decreases self.shards@.len() - i,
        {
            proof {
                assert(self.shards@[i as int].spec_capacity() == self.shards@[0].spec_capacity());
                assert((i + 1) * self.shards@[0].spec_capacity() <= self.num_shards
                    * self.shards@[0].spec_capacity()) by (nonlinear_arith)
                    requires
                        i + 1 <= self.num_shards,
                ;
                assert((i + 1) * self.shards@[0].spec_capacity() == i * self.shards@[0].spec_capacity()
                    + self.shards@[0].spec_capacity()) by (nonlinear_arith);
            }
            total = total + self.shards[i].capacity();
            i = i + 1;
        }
        total
    }

    /// Prunes every shard.
    fn prune(&mut self)
        ensures
            final(self).spec_total_capacity() == old(self).spec_total_capacity(),
            final(self).spec_shards().len() == old(self).spec_shards().len(),
            final(self).spec_seed() == old(self).spec_seed(),
            forall|j: int|
                0 <= j < old(self).spec_shards().len() ==> pruned_from(
                    old(self).spec_shards()[j].spec_entries(),
                    #[trigger] final(self).spec_shards()[j].spec_entries(),
                ),
    {
        let mut i: usize = 0;
        while i < self.shards.len()
            invariant
                self.wf(),
                i <= self.shards@.len(),
                self.shards@.len() == old(self).shards@.len(),
                self.seed == old(self).seed,
                forall|j: int|
                    i <= j < self.shards@.len() ==> #[trigger] self.shards@[j] == old(self).shards@[j],
                forall|j: int|
                    0 <= j < i ==> pruned_from(
                        old(self).shards@[j].spec_entries(),
                        #[trigger] self.shards@[j].spec_entries(),
                    ),
                self.num_shards == old(self).num_shards,
                self.shards@[0].spec_capacity() == old(self).shards@[0].spec_capacity(),
            decreases self.shards@.len() - i,
        {
            let ghost old_shards = self.shards@;
            let mut shard = self.shards.remove(i);
            shard.prune();
            self.shards.insert(i, shard);
            proof {
                assert(self.shards@ =~= old_shards.update(i as int, shard));
                lemma_shards_charge_update(old_shards, i as int, shard);
                let es0 = old_shards[i as int].spec_entries();
                let mask = choose|mask: Seq<bool>| mask.len() == es0.len() && shard.spec_entries() == kept(es0, mask);
                lemma_charge_sum_kept(es0, mask);
            }
            i = i + 1;
        }
    }
}

/// The total charge of a prefix of the shards is at most that of all of them.
proof fn lemma_shards_charge_prefix<K: CacheKey, V>(shards: Seq<LruCacheShard<K, V>>, k: int)
    requires
        0 <= k <= shards.len(),
    ensures
        shards_charge(shards.take(k)) <= shards_charge(shards),
    decreases shards.len() - k,
{
    if k < shards.len() {
        lemma_shards_charge_prefix(shards, k + 1);
        assert(shards.take(k + 1).drop_last() =~= shards.take(k));
    } else {
        assert(shards.take(k) =~= shards);
    }
}

/// Dropping entries from the front keeps no more charge than there was.
proof fn lemma_charge_sum_suffix<V>(entries: Seq<EntryView<V>>, k: int)
    requires
        0 <= k <= entries.len(),
    ensures
        charge_sum(entries.subrange(k, entries.len() as int)) <= charge_sum(entries),
    decreases k,
{
    if k == 0 {
        assert(entries.subrange(0, entries.len() as int) =~= entries);
    } else {
        lemma_charge_sum_suffix(entries, k - 1);
        let s = entries.subrange(k - 1, entries.len() as int);
        lemma_charge_sum_remove(s, 0);
        assert(s.remove(0) =~= entries.subrange(k, entries.len() as int));
    }
}

/// After an insert into a shard, its charge is at most the charge before, less the
/// replaced entry's, plus the new charge.
proof fn lemma_insert_charge<K: CacheKey, V>(
    before: LruCacheShard<K, V>,
    after: LruCacheShard<K, V>,
    key: Seq<u8>,
    v: V,
    charge: usize,
)
    requires
        inserted_entries(before.spec_entries(), after.spec_entries(), key, v, charge as nat, before.spec_capacity()),
    ensures
        charge_sum(after.spec_entries()) <= charge_sum(before.spec_entries()) + charge,
{
    let es0 = before.spec_entries();
    let added = without_key(es0, key).push((key, v, charge as nat));
    let k = choose|k: int|
        #[trigger] evicted_over_capacity(added, k, before.spec_capacity()) && after.spec_entries() == added.subrange(
            k,
            added.len() as int,
        );
    lemma_charge_sum_suffix(added, k);
    assert(added.drop_last() =~= without_key(es0, key));
    if let Some(i) = key_index(es0, key) {
        lemma_charge_sum_remove(es0, i);
    }
}

} // verus!
