//! The in-memory table of recent writes: each write becomes one entry (the internal key's
//! length, the internal key, the value's length and the value) kept in a skip list.
use crate::db::dbformat::{
    internal_key_bytes, lemma_internal_key_roundtrip, lookup_key_bytes, packed_tag, tag_part,
    user_part, value_type_code, InternalKeyComparator, LookupKey, SequenceNumber, ValueType,
    TYPE_FOR_SEEK,
};
use crate::db::error::DbError;
use crate::db::iterator::DBIterator;
use crate::db::skiplist::{has_equal, is_lower_bound, strictly_sorted, Iterator, SkipList};
use crate::util::bytes::append_slice;
use crate::util::coding::{
    decode_fixed64, get_length_prefixed_slice, get_varint32, lemma_length_prefixed_roundtrip,
    length_prefixed_bytes, put_fixed64, put_varint32, spec_get_length_prefixed, spec_get_varint32,
    varint_bytes,
};
use crate::util::comparator::{Comparator, KeyOrder};
use vstd::prelude::*;

verus! {

/// The internal key an entry starts with: the length-prefixed slice at its front.
pub open spec fn entry_key(e: Seq<u8>) -> Option<Seq<u8>> {
    match spec_get_length_prefixed(e) {
        Some((n, k)) => Some(k),
        None => None,
    }
}

/// The internal key an entry starts with, or nothing where it cannot be read.
pub open spec fn entry_key_or_empty(e: Seq<u8>) -> Seq<u8> {
    match entry_key(e) {
        Some(k) => k,
        None => Seq::empty(),
    }
}

/// The value of an entry: the length-prefixed slice right after its internal key.
pub open spec fn entry_value(e: Seq<u8>) -> Option<Seq<u8>> {
    match spec_get_length_prefixed(e) {
        Some((n, k)) => match spec_get_length_prefixed(e.skip(n as int)) {
            Some((m, v)) => Some(v),
            None => None,
        },
        None => None,
    }
}

/// The internal key at the front of `v`, if it can be read.
fn read_entry_key(v: &[u8]) -> (r: Option<&[u8]>)
    ensures
        match r {
            Some(x) => entry_key(v@) == Some(x@),
            None => entry_key(v@) is None,
        },
{
    match get_length_prefixed_slice(v) {
        Some((_, k)) => Some(k),
        None => None,
    }
}

/// The value after the internal key at the front of `v`, if it can be read.
fn read_entry_value(v: &[u8]) -> (r: Option<&[u8]>)
    ensures
        match r {
            Some(x) => entry_value(v@) == Some(x@),
            None => entry_value(v@) is None,
        },
{
    match get_length_prefixed_slice(v) {
        Some((n, _)) => {
            let rest = vstd::slice::slice_subrange(v, n, v.len());
            proof {
                assert(rest@ =~= v@.skip(n as int));
            }
            match get_length_prefixed_slice(rest) {
                Some((_, x)) => Some(x),
                None => None,
            }
        },
        None => None,
    }
}

/// `target` prefixed with its length as a varint32, into `scratch`.
fn encode_key(scratch: &mut Vec<u8>, target: &[u8])
    ensures
        final(scratch)@ == varint_bytes((target@.len() as u32) as nat) + target@,
{
    scratch.clear();
    let mut len = put_varint32(#[verifier::truncate] (target.len() as u32));
    scratch.append(&mut len);
    append_slice(scratch, target);
}

/// Orders memtable entries by the internal keys they start with.
pub struct KeyComparator<C: Comparator> {
    compactor: InternalKeyComparator<C>,
}

impl<C: Comparator> KeyComparator<C> {
    /// Compares the internal keys that `a` and `b` start with.
    pub fn compare(&self, a: &[u8], b: &[u8]) -> (r: KeyOrder)
        requires
            Self::accepts(a@),
            Self::accepts(b@),
        ensures
            r == Self::order_spec(a@, b@),
    {
        let a = match read_entry_key(a) {
            Some(k) => k,
            None => a,
        };
        let b = match read_entry_key(b) {
            Some(k) => k,
            None => b,
        };
        self.compactor.compare(a, b)
    }
}

impl<C: Comparator> Comparator for KeyComparator<C> {
    open spec fn accepts(key: Seq<u8>) -> bool {
        entry_key(key) matches Some(k) && InternalKeyComparator::<C>::accepts(k)
    }

    open spec fn order_spec(a: Seq<u8>, b: Seq<u8>) -> KeyOrder {
        InternalKeyComparator::<C>::order_spec(entry_key_or_empty(a), entry_key_or_empty(b))
    }

    /// Entries are never shortened: the skip list never asks for a separator.
    open spec fn separator_spec(start: Seq<u8>, limit: Seq<u8>) -> Option<Seq<u8>> {
        None
    }

    /// Entries are never shortened: the skip list never asks for a successor.
    open spec fn successor_spec(key: Seq<u8>) -> Option<Seq<u8>> {
        None
    }

    proof fn lemma_order_antisymmetric(a: Seq<u8>, b: Seq<u8>) {
        InternalKeyComparator::<C>::lemma_order_antisymmetric(entry_key_or_empty(a), entry_key_or_empty(b));
    }

    proof fn lemma_order_transitive(a: Seq<u8>, b: Seq<u8>, c: Seq<u8>) {
        InternalKeyComparator::<C>::lemma_order_transitive(
            entry_key_or_empty(a),
            entry_key_or_empty(b),
            entry_key_or_empty(c),
        );
    }

    proof fn lemma_order_reflexive(a: Seq<u8>) {
        InternalKeyComparator::<C>::lemma_order_reflexive(entry_key_or_empty(a));
    }

    fn name(&self) -> (r: &'static str)
        ensures
            r@ == "leveldb.KeyComparator"@,
    {
        "leveldb.KeyComparator"
    }

    /// Compares the internal keys that the entries start with.
    fn compare(&self, a: &[u8], b: &[u8]) -> (r: KeyOrder) {
        let a = match read_entry_key(a) {
            Some(k) => k,
            None => a,
        };
        let b = match read_entry_key(b) {
            Some(k) => k,
            None => b,
        };
        self.compactor.compare(a, b)
    }

    /// No separator is offered for entries.
    fn find_shortest_separator(&self, start: &[u8], limit: &[u8]) -> (r: Option<Vec<u8>>) {
        None
    }

    /// No successor is offered for entries.
    fn find_short_successor(&self, key: &[u8]) -> (r: Option<Vec<u8>>) {
        None
    }
}

/// The entry written for `key` and `value` at sequence number `s` with type `t`: the
/// internal key (the user key and the tag as a fixed64) prefixed with its length as a
/// varint32, then the value prefixed with its length.
pub open spec fn memtable_entry(s: u64, t: ValueType, key: Seq<u8>, value: Seq<u8>) -> Seq<u8> {
    length_prefixed_bytes(internal_key_bytes(key, s, t)) + length_prefixed_bytes(value)
}

/// What looking up a user key finds at the first entry not below the lookup key.
pub enum MemGet {
    /// A value for the key.
    Found(Seq<u8>),
    /// A deletion of the key.
    Deleted,
    /// No entry for the key.
    Missing,
    /// An entry whose type or value cannot be read.
    Unreadable,
}

/// The outcome of a lookup of `ukey` whose search stopped at position `k` of `entries`:
/// past the end, or at an entry for another user key, nothing; at an entry for `ukey`, its
/// value or its deletion.
pub open spec fn lookup_at<C: Comparator>(entries: Seq<Seq<u8>>, k: int, ukey: Seq<u8>) -> MemGet {
    if k >= entries.len() {
        MemGet::Missing
    } else {
        let ik = entry_key_or_empty(entries[k]);
        if C::order_spec(user_part(ik), ukey) != KeyOrder::Equal {
            MemGet::Missing
        } else {
            let b = tag_part(ik) % 256;
            if b == 1 {
                match entry_value(entries[k]) {
                    Some(v) => MemGet::Found(v),
                    None => MemGet::Unreadable,
                }
            } else if b == 0 {
                MemGet::Deleted
            } else {
                MemGet::Unreadable
            }
        }
    }
}

/// Law: a lookup finds a value or a deletion only in an entry whose user key compares
/// equal to the user key looked up, with the entry's type and value; so where no entry has
/// that user key, it finds nothing.
pub proof fn lemma_lookup_at_same_user_key<C: Comparator>(entries: Seq<Seq<u8>>, k: int, ukey: Seq<u8>)
    requires
        0 <= k,
    ensures
        lookup_at::<C>(entries, k, ukey) matches MemGet::Found(v) ==> 0 <= k < entries.len() && C::order_spec(
            user_part(entry_key_or_empty(entries[k])),
            ukey,
        ) == KeyOrder::Equal && tag_part(entry_key_or_empty(entries[k])) % 256 == 1 && entry_value(entries[k])
            == Some(v),
        lookup_at::<C>(entries, k, ukey) is Deleted ==> 0 <= k < entries.len() && C::order_spec(
            user_part(entry_key_or_empty(entries[k])),
            ukey,
        ) == KeyOrder::Equal && tag_part(entry_key_or_empty(entries[k])) % 256 == 0,
        (0 <= k < entries.len() ==> C::order_spec(user_part(entry_key_or_empty(entries[k])), ukey) != KeyOrder::Equal)
            ==> lookup_at::<C>(entries, k, ukey) is Missing,
{
}

/// What an entry written by `add` reads back as: its internal key and its value.
pub proof fn lemma_entry_reads_back(s: u64, t: ValueType, key: Seq<u8>, value: Seq<u8>)
    requires
        key.len() + 8 < 0x1_0000_0000,
        value.len() < 0x1_0000_0000,
    ensures
        entry_key(memtable_entry(s, t, key, value)) == Some(internal_key_bytes(key, s, t)),
        entry_value(memtable_entry(s, t, key, value)) == Some(value),
{
    let ik = internal_key_bytes(key, s, t);
    let e = memtable_entry(s, t, key, value);
    lemma_length_prefixed_roundtrip(ik, length_prefixed_bytes(value));
    lemma_length_prefixed_roundtrip(value, Seq::empty());
    assert(e.skip(length_prefixed_bytes(ik).len() as int) =~= length_prefixed_bytes(value) + Seq::<u8>::empty());
}

/// The entry written for `key` at `s` does not sort below the lookup key for `key` at any
/// `s2` from `s` on, and reads back as a value entry for `key`.
#[verifier::rlimit(40)]
proof fn lemma_entry_against_lookup<C: Comparator>(key: Seq<u8>, value: Seq<u8>, s: u64, s2: u64)
    requires
        C::accepts(key),
        key.len() + 8 < 0x1_0000_0000,
        value.len() < 0x1_0000_0000,
        s <= s2 < 0x100_0000_0000_0000,
    ensures
        KeyComparator::<C>::order_spec(memtable_entry(s, ValueType::TypeValue, key, value), lookup_key_bytes(key, s2))
            != KeyOrder::Less,
        user_part(entry_key_or_empty(memtable_entry(s, ValueType::TypeValue, key, value))) == key,
        tag_part(entry_key_or_empty(memtable_entry(s, ValueType::TypeValue, key, value))) % 256 == 1,
        entry_value(memtable_entry(s, ValueType::TypeValue, key, value)) == Some(value),
        user_part(entry_key_or_empty(lookup_key_bytes(key, s2))) == key,
{
    let ei = internal_key_bytes(key, s, ValueType::TypeValue);
    let lk = internal_key_bytes(key, s2, TYPE_FOR_SEEK);
    lemma_entry_reads_back(s, ValueType::TypeValue, key, value);
    lemma_internal_key_roundtrip(key, s, ValueType::TypeValue);
    lemma_internal_key_roundtrip(key, s2, TYPE_FOR_SEEK);
    lemma_length_prefixed_roundtrip(lk, Seq::empty());
    assert(lookup_key_bytes(key, s2) =~= length_prefixed_bytes(lk) + Seq::<u8>::empty());
    assert(entry_key_or_empty(lookup_key_bytes(key, s2)) == lk);
    C::lemma_order_reflexive(key);
    assert(tag_part(ei) <= tag_part(lk));
}

/// A lookup of `key` at sequence number `s2` finds the value of the one entry for `key`,
/// written at a sequence number `s` not after `s2`: wherever the search for the lookup
/// key stops, the outcome is that value.
pub proof fn lemma_lookup_finds_entry<C: Comparator>(
    entries: Seq<Seq<u8>>,
    i: int,
    key: Seq<u8>,
    value: Seq<u8>,
    s: u64,
    s2: u64,
    k: int,
)
    requires
        strictly_sorted::<KeyComparator<C>>(entries),
        0 <= i < entries.len(),
        entries[i] == memtable_entry(s, ValueType::TypeValue, key, value),
        C::accepts(key),
        key.len() + 8 < 0x1_0000_0000,
        value.len() < 0x1_0000_0000,
        s <= s2 < 0x100_0000_0000_0000,
        forall|j: int|
            0 <= j < entries.len() && j != i ==> C::order_spec(
                user_part(#[trigger] entry_key_or_empty(entries[j])),
                key,
            ) != KeyOrder::Equal,
        is_lower_bound::<KeyComparator<C>>(entries, lookup_key_bytes(key, s2), k),
    ensures
        lookup_at::<C>(entries, k, key) == MemGet::Found(value),
{
    let lookup = lookup_key_bytes(key, s2);
    lemma_entry_against_lookup::<C>(key, value, s, s2);
    C::lemma_order_reflexive(key);
    assert(KeyComparator::<C>::order_spec(entries[i], lookup) != KeyOrder::Less);
    assert(k <= i);
    if k < i {
        assert(KeyComparator::<C>::order_spec(entries[k], entries[i]) == KeyOrder::Less);
        assert(KeyComparator::<C>::order_spec(entries[k], lookup) != KeyOrder::Less);
        let ek = entry_key_or_empty(entries[k]);
        assert(C::order_spec(user_part(ek), key) != KeyOrder::Equal);
        assert(false);
    }
}

/// An entry written by `add` is accepted by the comparator when the user key is.
proof fn lemma_entry_accepted<C: Comparator>(s: u64, t: ValueType, key: Seq<u8>, value: Seq<u8>)
    requires
        C::accepts(key),
        key.len() + 8 < 0x1_0000_0000,
        value.len() < 0x1_0000_0000,
    ensures
        KeyComparator::<C>::accepts(memtable_entry(s, t, key, value)),
{
    let ik = internal_key_bytes(key, s, t);
    lemma_length_prefixed_roundtrip(ik, length_prefixed_bytes(value));
    assert(entry_key(memtable_entry(s, t, key, value)) == Some(ik));
    assert(user_part(ik) =~= key);
    assert(InternalKeyComparator::<C>::accepts(ik));
}

/// The bytes of the entry for `key` and `value` at sequence number `s` with type `t`.
fn entry_bytes(s: SequenceNumber, t: ValueType, key: &[u8], value: &[u8]) -> (r: Vec<u8>)
    requires
        key@.len() + 8 < 0x1_0000_0000,
        value@.len() < 0x1_0000_0000,
    ensures
        r@ == memtable_entry(s, t, key@, value@),
{
    let key_size = key.len();
    let value_size = value.len();
    let internal_key_size = key_size + 8;
    let mut buf: Vec<u8> = put_varint32(internal_key_size as u32);
    append_slice(&mut buf, key);
    let mut tag_bytes = put_fixed64(crate::db::dbformat::pack_sequence_and_type(s, t.as_u8()));
    buf.append(&mut tag_bytes);
    let mut vlen = put_varint32(value_size as u32);
    buf.append(&mut vlen);
    append_slice(&mut buf, value);
    proof {
        assert(buf@ =~= memtable_entry(s, t, key@, value@));
    }
    buf
}

/// The table of recent writes.
pub struct MemTable<C: Comparator> {
    comparator: InternalKeyComparator<C>,
    table: SkipList<KeyComparator<C>>,
}

impl<C: Comparator + Copy> MemTable<C> {
    /// The entries, in order.
    pub closed spec fn entries(&self) -> Seq<Seq<u8>> {
        self.table@
    }

    /// The table's invariant.
    pub closed spec fn wf(&self) -> bool {
        self.table.wf()
    }

    /// The entries are in increasing order and each starts with an internal key the
    /// comparator accepts.
    pub proof fn lemma_entries(&self)
        requires
            self.wf(),
        ensures
            strictly_sorted::<KeyComparator<C>>(self.entries()),
            forall|i: int|
                0 <= i < self.entries().len() ==> KeyComparator::<C>::accepts(#[trigger] self.entries()[i]),
    {
        self.table.lemma_keys_sorted();
    }

    /// An empty table ordered by `comparator`.
    pub fn new(comparator: &InternalKeyComparator<C>) -> (r: Self)
        ensures
            r.wf(),
            r.entries() == Seq::<Seq<u8>>::empty(),
    {
        let user = *comparator.user_comparator();
        let table = SkipList::new(KeyComparator { compactor: InternalKeyComparator::new(user) });
        MemTable { comparator: InternalKeyComparator::new(user), table }
    }

    /// Adds the entry for `key` and `value` at sequence number `s` with type `t`, which
    /// must compare equal to no entry already there.
    pub fn add(&mut self, s: SequenceNumber, t: ValueType, key: &[u8], value: &[u8])
        requires
            old(self).wf(),
            C::accepts(key@),
            key@.len() + 8 < 0x1_0000_0000,
            value@.len() < 0x1_0000_0000,
            !has_equal::<KeyComparator<C>>(old(self).entries(), memtable_entry(s, t, key@, value@)),
            old(self).entries().len() + 3 <= usize::MAX / 12,
        ensures
            final(self).wf(),
            exists|k: int|
                is_lower_bound::<KeyComparator<C>>(
                    old(self).entries(),
                    memtable_entry(s, t, key@, value@),
                    k,
                ) && final(self).entries() == old(self).entries().insert(
                    k,
                    memtable_entry(s, t, key@, value@),
                ),
    {
        let buf = entry_bytes(s, t, key, value);
        proof {
            lemma_entry_accepted::<C>(s, t, key@, value@);
        }
        self.table.insert(buf);
    }

    /// Looks up the user key of `key`: finds the first entry not below the lookup key and,
    /// when its user key compares equal, gives its value, or `NotFound` for a deletion.
    pub fn get(&self, key: &LookupKey) -> (r: Result<Option<Vec<u8>>, DbError>)
        requires
            self.wf(),
            key.wf(),
            KeyComparator::<C>::accepts(key.data()),
            C::accepts(key.data().subrange(key.key_start() as int, key.key_end() - 8)),
            forall|k: int|
                is_lower_bound::<KeyComparator<C>>(self.entries(), key.data(), k) ==> !(
                lookup_at::<C>(
                    self.entries(),
                    k,
                    key.data().subrange(key.key_start() as int, key.key_end() - 8),
                ) is Unreadable),
        ensures
            exists|k: int|
                is_lower_bound::<KeyComparator<C>>(self.entries(), key.data(), k) && match lookup_at::<
                    C,
                >(
                    self.entries(),
                    k,
                    key.data().subrange(key.key_start() as int, key.key_end() - 8),
                ) {
                    MemGet::Found(v) => r matches Ok(Some(x)) && x@ == v,
                    MemGet::Deleted => r matches Err(DbError::NotFound(m)) && m@ == ""@,
                    MemGet::Missing => r matches Ok(None),
                    MemGet::Unreadable => false,
                },
            r matches Ok(Some(x)) ==> exists|i: int|
                0 <= i < self.entries().len() && C::order_spec(
                    user_part(#[trigger] entry_key_or_empty(self.entries()[i])),
                    key.data().subrange(key.key_start() as int, key.key_end() - 8),
                ) == KeyOrder::Equal && tag_part(entry_key_or_empty(self.entries()[i])) % 256 == 1
                    && entry_value(self.entries()[i]) == Some(x@),
            r is Err ==> exists|i: int|
                0 <= i < self.entries().len() && C::order_spec(
                    user_part(#[trigger] entry_key_or_empty(self.entries()[i])),
                    key.data().subrange(key.key_start() as int, key.key_end() - 8),
                ) == KeyOrder::Equal && tag_part(entry_key_or_empty(self.entries()[i])) % 256 == 0,
            (forall|i: int|
                0 <= i < self.entries().len() ==> C::order_spec(
                    user_part(#[trigger] entry_key_or_empty(self.entries()[i])),
                    key.data().subrange(key.key_start() as int, key.key_end() - 8),
                ) != KeyOrder::Equal) ==> r matches Ok(None),
    {
        let m = key.memtable_key();
        let mut iter = self.table.iter();
        iter.seek(m);
        let ghost k = iter.index();
        let ukey = key.user_key();
        proof {
            self.lemma_entries();
            assert(is_lower_bound::<KeyComparator<C>>(self.entries(), key.data(), k));
            assert(!(lookup_at::<C>(self.entries(), k, ukey@) is Unreadable));
        }
        proof {
            lemma_lookup_at_same_user_key::<C>(self.entries(), k, ukey@);
        }
        if iter.valid() {
            let entry = iter.key();
            proof {
                assert(iter.keys() == self.entries());
                assert(entry@ == self.entries()[k]);
                assert(KeyComparator::<C>::accepts(entry@));
            }
            match get_varint32(entry) {
                Some((bytes_read, klength)) => {
                    proof {
                        assert(entry_key(entry@) is Some);
                        assert(bytes_read + klength <= entry@.len());
                        assert(klength >= 8);
                    }
                    let kl = klength as usize;
                    let elen = entry.len();
                    assert(bytes_read as int + kl as int <= elen);
                    let ikey = vstd::slice::slice_subrange(entry, bytes_read, bytes_read + kl);
                    let user_key = vstd::slice::slice_subrange(entry, bytes_read, bytes_read + (kl - 8));
                    proof {
                        assert(entry_key(entry@) == Some(ikey@));
                        assert(user_key@ =~= user_part(ikey@));
                    }
                    if self.comparator.user_comparator().compare(user_key, ukey) == KeyOrder::Equal {
                        let tag_at = vstd::slice::slice_subrange(entry, bytes_read + (kl - 8), bytes_read + kl);
                        let tag = decode_fixed64(tag_at);
                        proof {
                            assert(tag_at@ =~= ikey@.subrange(ikey@.len() - 8, ikey@.len() as int));
                        }
                        let t = (tag % 256) as u8;
                        if t == 1 {
                            match read_entry_value(entry) {
                                Some(v) => return Ok(Some(crate::util::bytes::to_vec(v))),
                                None => return Ok(None),
                            }
                        } else {
                            proof {
                                reveal_strlit("");
                            }
                            return Err(DbError::NotFound(String::new()));
                        }
                    }
                },
                None => return Err(crate::db::error::corruption("bad entry in memtable")),
            }
        }
        Ok(None)
    }
}

/// An iterator over a memtable's skip list.
pub struct MemTableIterator<'a, C: Comparator> {
    iter: Iterator<'a, KeyComparator<C>>,
    tmp: Vec<u8>,
}

impl<'a, C: Comparator> MemTableIterator<'a, C> {
    /// The entries, in order.
    pub closed spec fn entries(&self) -> Seq<Seq<u8>> {
        self.iter.keys()
    }

    /// The position among the entries; their count when not positioned.
    pub closed spec fn position(&self) -> int {
        self.iter.index()
    }

    /// An iterator over `table`, not yet positioned.
    pub fn new(table: &'a SkipList<KeyComparator<C>>) -> (r: Self)
        requires
            table.wf(),
        ensures
            r.inv(),
            r.entries() == table@,
            r.position() == table@.len(),
    {
        MemTableIterator { iter: table.iter(), tmp: Vec::new() }
    }
}

impl<'a, C: Comparator> DBIterator for MemTableIterator<'a, C> {
    closed spec fn inv(&self) -> bool {
        self.iter.wf()
    }

    closed spec fn is_valid(&self) -> bool {
        self.iter.index() < self.iter.keys().len()
    }

    closed spec fn seekable(&self, target: Seq<u8>) -> bool {
        KeyComparator::<C>::accepts(varint_bytes((target.len() as u32) as nat) + target)
    }

    /// The internal key of the current entry; empty when the iterator is not positioned.
    closed spec fn current_key(&self) -> Seq<u8> {
        if self.iter.index() < self.iter.keys().len() {
            entry_key_or_empty(self.iter.keys()[self.iter.index()])
        } else {
            Seq::empty()
        }
    }

    /// The value of the current entry; empty when the iterator is not positioned.
    closed spec fn current_value(&self) -> Seq<u8> {
        if self.iter.index() < self.iter.keys().len() {
            match entry_value(self.iter.keys()[self.iter.index()]) {
                Some(v) => v,
                None => Seq::empty(),
            }
        } else {
            Seq::empty()
        }
    }

    closed spec fn first_from(before: Self, after: Self) -> bool {
        after.iter.keys() == before.iter.keys() && after.iter.index() == 0
    }

    closed spec fn last_from(before: Self, after: Self) -> bool {
        &&& after.iter.keys() == before.iter.keys()
        &&& after.iter.index() == if before.iter.keys().len() == 0 {
            0
        } else {
            before.iter.keys().len() - 1
        }
    }

    /// Moves to the first entry not below `target` prefixed with its length.
    closed spec fn seek_from(before: Self, after: Self, target: Seq<u8>) -> bool {
        &&& after.iter.keys() == before.iter.keys()
        &&& is_lower_bound::<KeyComparator<C>>(
            after.iter.keys(),
            varint_bytes((target.len() as u32) as nat) + target,
            after.iter.index(),
        )
    }

    closed spec fn next_from(before: Self, after: Self) -> bool {
        after.iter.keys() == before.iter.keys() && after.iter.index() == before.iter.index() + 1
    }

    closed spec fn prev_from(before: Self, after: Self) -> bool {
        &&& after.iter.keys() == before.iter.keys()
        &&& after.iter.index() == if before.iter.index() == 0 {
            before.iter.keys().len() as int
        } else {
            before.iter.index() - 1
        }
    }

    closed spec fn steppable(&self) -> bool {
        self.iter.index() < self.iter.keys().len()
    }

    proof fn lemma_valid_steppable(&self) {
    }

    /// Always `Ok`.
    closed spec fn current_status(&self) -> Result<(), DbError> {
        Ok(())
    }

    closed spec fn steps_forward(&self) -> nat {
        if self.iter.index() < self.iter.keys().len() {
            (self.iter.keys().len() - self.iter.index()) as nat
        } else {
            0
        }
    }

    closed spec fn steps_backward(&self) -> nat {
        if self.iter.index() < self.iter.keys().len() {
            (self.iter.index() + 1) as nat
        } else {
            0
        }
    }

    closed spec fn steps_bound() -> nat {
        usize::MAX as nat
    }

    proof fn lemma_steps_bounded(&self) {
        self.iter.lemma_position_bounds();
    }

    fn valid(&self) -> (r: bool) {
        self.iter.valid()
    }

    fn seek_to_first(&mut self) {
        self.iter.seek_to_first();
    }

    fn seek_to_last(&mut self) {
        self.iter.seek_to_last();
    }

    /// Moves to the first entry not below `k` prefixed with its length.
    fn seek(&mut self, k: &[u8]) {
        encode_key(&mut self.tmp, k);
        self.iter.seek(self.tmp.as_slice());
    }

    fn next(&mut self) {
        proof {
            self.iter.lemma_position_bounds();
        }
        self.iter.next();
    }

    fn prev(&mut self) {
        proof {
            self.iter.lemma_position_bounds();
        }
        self.iter.prev();
    }

    fn key(&self) -> (r: &[u8]) {
        if self.iter.valid() {
            match read_entry_key(self.iter.key()) {
                Some(k) => k,
                None => &[],
            }
        } else {
            &[]
        }
    }

    fn value(&self) -> (r: &[u8]) {
        if self.iter.valid() {
            match read_entry_value(self.iter.key()) {
                Some(v) => v,
                None => &[],
            }
        } else {
            &[]
        }
    }

    fn status(&self) -> (r: Result<(), DbError>) {
        Ok(())
    }
}

} // verus!
