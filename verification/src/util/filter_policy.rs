//! Filters that tell, for a set of keys, which keys are surely not in it.
use crate::util::bytes::append_slice;
use crate::util::coding::{
    encode_fixed32, fixed32_bytes, fixed32_value, lemma_fixed32_roundtrip,
};
use crate::util::hash::{hash, hash_of, word_at};
use vstd::prelude::*;
use vstd::string::StringSliceAdditionalSpecFns;

verus! {

/// The views of a list of keys.
pub open spec fn key_views(keys: Seq<&[u8]>) -> Seq<Seq<u8>> {
    keys.map_values(|k: &[u8]| k@)
}

/// A way of summarising a set of keys in a filter that may report false positives but
/// never false negatives. Users supply their own.
pub trait FilterPolicy {
    /// The filter this policy builds for `keys`.
    spec fn filter_of(&self, keys: Seq<Seq<u8>>) -> Seq<u8>;

    /// Whether this policy says `key` may be in the set that `filter` summarises.
    spec fn may_match(&self, key: Seq<u8>, filter: Seq<u8>) -> bool;

    /// A key that was summarised is always reported as possibly present.
    proof fn lemma_no_false_negatives(&self, keys: Seq<Seq<u8>>, key: Seq<u8>)
        requires
            keys.contains(key),
        ensures
            self.may_match(key, self.filter_of(keys)),
    ;

    /// The bytes of the policy's name.
    spec fn name_bytes(&self) -> Seq<u8>;

    /// The policy's name, stored with the filters it builds.
    fn name(&self) -> (r: &str)
        ensures
            r.spec_bytes() == self.name_bytes(),
    ;

    /// Builds the filter for `keys`.
    fn create_filter(&self, keys: &Vec<&[u8]>) -> (r: Vec<u8>)
        ensures
            r@ == self.filter_of(key_views(keys@)),
    ;

    /// Whether `key` may be among the keys `filter` summarises.
    fn key_may_match(&self, key: &[u8], filter: &[u8]) -> (r: bool)
        ensures
            r == self.may_match(key@, filter@),
    ;
}

/// The seed under which `HashFilterPolicy` hashes keys.
pub const KEY_HASH_SEED: u32 = 1;

/// The concatenated four-byte hashes of `keys`, in order.
pub open spec fn hash_list(keys: Seq<Seq<u8>>) -> Seq<u8>
    decreases keys.len(),
{
    if keys.len() == 0 {
        Seq::empty()
    } else {
        hash_list(keys.drop_last()) + fixed32_bytes(hash_of(keys.last(), KEY_HASH_SEED))
    }
}

/// Whether one of the four-byte words of `filter` is the hash of `key`.
pub open spec fn hash_listed(key: Seq<u8>, filter: Seq<u8>) -> bool {
    exists|i: int|
        0 <= i < filter.len() / 4 && #[trigger] fixed32_value(filter.subrange(4 * i, 4 * i + 4))
            == hash_of(key, KEY_HASH_SEED)
}

/// An empty filter lists no key, so it rules every key out.
pub proof fn lemma_empty_filter_lists_nothing(key: Seq<u8>)
    ensures
        !hash_listed(key, Seq::empty()),
{
}

/// The hash list of `keys` has one word per key, the hash of that key.
pub proof fn lemma_hash_list_words(keys: Seq<Seq<u8>>)
    ensures
        hash_list(keys).len() == 4 * keys.len(),
        forall|i: int|
            0 <= i < keys.len() ==> #[trigger] fixed32_value(hash_list(keys).subrange(4 * i, 4 * i + 4))
                == hash_of(keys[i], KEY_HASH_SEED),
    decreases keys.len(),
{
    if keys.len() > 0 {
        let init = keys.drop_last();
        lemma_hash_list_words(init);
        let v = hash_of(keys.last(), KEY_HASH_SEED);
        lemma_fixed32_roundtrip(v, Seq::empty());
        assert(fixed32_bytes(v) + Seq::<u8>::empty() =~= fixed32_bytes(v));
        let all = hash_list(keys);
        assert forall|i: int| 0 <= i < keys.len() implies #[trigger] fixed32_value(
            all.subrange(4 * i, 4 * i + 4),
        ) == hash_of(keys[i], KEY_HASH_SEED) by {
            if i < init.len() {
                assert(all.subrange(4 * i, 4 * i + 4) =~= hash_list(init).subrange(4 * i, 4 * i + 4));
                assert(keys[i] == init[i]);
            } else {
                assert(all.subrange(4 * i, 4 * i + 4) =~= fixed32_bytes(v));
            }
        }
    }
}

/// A filter policy that stores the hash of every key: a key is reported as possibly
/// present exactly when its hash is among those stored.
#[derive(Clone, Copy, Debug)]
pub struct HashFilterPolicy;

impl FilterPolicy for HashFilterPolicy {
    open spec fn filter_of(&self, keys: Seq<Seq<u8>>) -> Seq<u8> {
        hash_list(keys)
    }

    open spec fn may_match(&self, key: Seq<u8>, filter: Seq<u8>) -> bool {
        hash_listed(key, filter)
    }

    proof fn lemma_no_false_negatives(&self, keys: Seq<Seq<u8>>, key: Seq<u8>) {
        lemma_hash_list_words(keys);
        let i = choose|i: int| 0 <= i < keys.len() && keys[i] == key;
        let f = hash_list(keys);
        assert(fixed32_value(f.subrange(4 * i, 4 * i + 4)) == hash_of(key, KEY_HASH_SEED));
    }

    open spec fn name_bytes(&self) -> Seq<u8> {
        "HashFilterPolicy".spec_bytes()
    }

    fn name(&self) -> (r: &str)
        ensures
            r@ == "HashFilterPolicy"@,
    {
        "HashFilterPolicy"
    }

    fn create_filter(&self, keys: &Vec<&[u8]>) -> (r: Vec<u8>) {
        let mut filter: Vec<u8> = Vec::new();
        let mut i: usize = 0;
        while i < keys.len()
            invariant
                i <= keys.len(),
                filter@ == hash_list(key_views(keys@.take(i as int))),
            decreases keys.len() - i,
        {
            let h = hash(keys[i], KEY_HASH_SEED);
            let word = encode_fixed32(h);
            append_slice(&mut filter, word.as_slice());
            proof {
                let next = key_views(keys@.take(i + 1));
                assert(next.drop_last() =~= key_views(keys@.take(i as int)));
                assert(next.last() == keys@[i as int]@);
            }
            i = i + 1;
        }
        assert(keys@.take(keys.len() as int) =~= keys@);
        filter
    }

    fn key_may_match(&self, key: &[u8], filter: &[u8]) -> (r: bool) {
        let h = hash(key, KEY_HASH_SEED);
        let words = filter.len() / 4;
        let mut i: usize = 0;
        while i < words
            invariant
                words == filter@.len() / 4,
                filter@.len() <= usize::MAX,
                i <= words,
                h == hash_of(key@, KEY_HASH_SEED),
                forall|j: int|
                    0 <= j < i ==> #[trigger] fixed32_value(filter@.subrange(4 * j, 4 * j + 4)) != h,
            decreases words - i,
        {
            assert(4 * i + 4 <= filter@.len()) by (nonlinear_arith)
                requires
                    i < words,
                    words == filter@.len() / 4,
            ;
            let w = word_at(filter, 4 * i);
            if w == h {
                assert(fixed32_value(filter@.subrange(4 * i as int, 4 * i + 4)) == h);
                return true;
            }
            i = i + 1;
        }
        false
    }
}

} // verus!
