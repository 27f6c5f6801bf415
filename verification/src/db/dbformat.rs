//! Internal keys: a user key followed by a 64-bit tag packing a sequence number and a
//! value type.
use crate::util::bytes::{append_slice, to_vec};
use crate::util::coding::{
    decode_fixed64, encode_varint32, fixed64_bytes, fixed64_value, lemma_fixed64_roundtrip,
    put_fixed64, put_varint64, varint_bytes,
};
use crate::util::comparator::{Comparator, KeyOrder, order_le};
use crate::util::text::{format_internal_key, internal_key_text, lossy_text, utf8_lossy};
use vstd::prelude::*;

verus! {

pub type SequenceNumber = u64;

/// The largest sequence number.
pub const MAX_SEQUENCE_NUMBER: u64 = 0xffff_ffff_ffff_ffff;

/// Whether an entry holds a value or records a deletion.
#[derive(Clone, Copy, Debug, PartialEq, Eq, Structural)]
pub enum ValueType {
    TypeDeletion,
    TypeValue,
}

/// The value type's number in the tag.
pub open spec fn value_type_code(t: ValueType) -> u8 {
    match t {
        ValueType::TypeDeletion => 0,
        ValueType::TypeValue => 1,
    }
}

impl ValueType {
    /// The value type's number in the tag.
    pub fn as_u8(&self) -> (r: u8)
        ensures
            r == value_type_code(*self),
    {
        match self {
            ValueType::TypeDeletion => 0,
            ValueType::TypeValue => 1,
        }
    }

    /// The value type with number `v`; only 0 and 1 name one.
    pub fn from_u8(v: u8) -> (r: ValueType)
        requires
            v < 2,
        ensures
            value_type_code(r) == v,
    {
        if v == 0 {
            ValueType::TypeDeletion
        } else {
            ValueType::TypeValue
        }
    }
}

/// The value type used for seeks: the one that sorts first among equal sequence numbers.
pub const TYPE_FOR_SEEK: ValueType = ValueType::TypeValue;

/// The tag `seq << 8 | t`, as a 64-bit number (bits of `seq` past 56 are lost).
pub open spec fn packed_tag(seq: u64, t: u8) -> u64 {
    ((seq as nat % 0x100_0000_0000_0000) * 256 + t) as u64
}

/// The user key of an internal key: all but its last eight bytes.
pub open spec fn user_part(k: Seq<u8>) -> Seq<u8> {
    k.subrange(0, k.len() - 8)
}

/// The tag of an internal key: its last eight bytes, read little-endian.
pub open spec fn tag_part(k: Seq<u8>) -> u64 {
    fixed64_value(k.subrange(k.len() - 8, k.len() as int))
}

/// The internal key encoding of a user key, sequence number and value type.
pub open spec fn internal_key_bytes(user_key: Seq<u8>, seq: u64, t: ValueType) -> Seq<u8> {
    user_key + fixed64_bytes(packed_tag(seq, value_type_code(t)))
}

pub fn pack_sequence_and_type(seq: SequenceNumber, t: u8) -> (r: u64)
    ensures
        r == packed_tag(seq, t),
{
    let r = seq << 8 | t as u64;
    assert(r == ((seq as nat % 0x100_0000_0000_0000) * 256 + t) as u64) by (bit_vector)
        requires
            r == seq << 8 | t as u64,
    ;
    r
}

/// The user key of an internal key.
pub fn extract_user_key(internal_key: &[u8]) -> (r: &[u8])
    requires
        internal_key@.len() >= 8,
    ensures
        r@ == user_part(internal_key@),
{
    let size = internal_key.len();
    &internal_key[0..size - 8]
}

/// An internal key taken apart.
#[derive(Debug)]
pub struct ParseInternalKey<'a> {
    pub user_key: &'a [u8],
    pub seq: SequenceNumber,
    pub value_type: ValueType,
}

/// The encoding of a parsed internal key: its user key followed by its fixed 64-bit tag.
pub fn append_internal_key(key: &ParseInternalKey) -> (r: Vec<u8>)
    ensures
        r@ == internal_key_bytes(key.user_key@, key.seq, key.value_type),
{
    let mut result: Vec<u8> = Vec::new();
    append_slice(&mut result, key.user_key);
    let mut tag = put_fixed64(pack_sequence_and_type(key.seq, key.value_type.as_u8()));
    result.append(&mut tag);
    result
}

impl<'a> ParseInternalKey<'a> {
    pub fn new(user_key: &'a [u8], seq: SequenceNumber, value_type: ValueType) -> (r: Self)
        ensures
            r.user_key@ == user_key@,
            r.seq == seq,
            r.value_type == value_type,
    {
        ParseInternalKey { user_key, seq, value_type }
    }

    /// The user key followed by the tag as a varint64.
    pub fn encode(&self) -> (r: Vec<u8>)
        ensures
            r@ == self.user_key@ + varint_bytes(
                packed_tag(self.seq, value_type_code(self.value_type)) as nat,
            ),
    {
        let mut result: Vec<u8> = Vec::new();
        append_slice(&mut result, self.user_key);
        let mut tag = put_varint64(pack_sequence_and_type(self.seq, self.value_type.as_u8()));
        result.append(&mut tag);
        result
    }

    /// The text `'<user key>' @ <seq> : <type>`, the user key decoded as UTF-8 with
    /// ill-formed bytes replaced.
    pub fn debug_string(&self) -> (r: String)
        ensures
            r@ == internal_key_text(
                lossy_text(self.user_key@),
                self.seq,
                value_type_code(self.value_type),
            ),
    {
        let text = utf8_lossy(self.user_key);
        format_internal_key(text.as_str(), self.seq, self.value_type.as_u8())
    }
}

/// The internal keys `parse_internal_key` accepts without failing: those too short to
/// parse, and those whose type byte names a value type.
pub open spec fn parsable_internal_key(k: Seq<u8>) -> bool {
    k.len() >= 8 ==> k[k.len() - 8] < 2
}

/// Takes an internal key apart; `None` when it is shorter than eight bytes.
pub fn parse_internal_key(internal_key: &[u8]) -> (r: Option<ParseInternalKey>)
    requires
        parsable_internal_key(internal_key@),
    ensures
        internal_key@.len() < 8 <==> r is None,
        r matches Some(p) ==> {
            &&& p.user_key@ == user_part(internal_key@)
            &&& p.seq == tag_part(internal_key@) / 256
            &&& value_type_code(p.value_type) == tag_part(internal_key@) % 256
        },
{
    let size = internal_key.len();
    if size < 8 {
        return None;
    }
    let num = decode_fixed64(&internal_key[size - 8..size]);
    let c = (num & 0xff) as u8;
    let seq = num >> 8;
    let ghost last = internal_key@.subrange(size - 8, size as int);
    proof {
        assert(c == num % 256 && seq == num / 256) by (bit_vector)
            requires
                c == (num & 0xff) as u8,
                seq == num >> 8,
        ;
        assert(last[0] == internal_key@[size - 8]);
        assert(num % 256 == last[0] as int);
    }
    Some(ParseInternalKey { user_key: &internal_key[0..size - 8], seq, value_type: ValueType::from_u8(c) })
}

/// Parsing an internal key encoding gives back its user key, value type, and sequence
/// number (when that number fits in 56 bits, as the tag keeps only 56 of them).
pub proof fn lemma_internal_key_roundtrip(user_key: Seq<u8>, seq: u64, t: ValueType)
    requires
        seq < 0x100_0000_0000_0000,
    ensures
        parsable_internal_key(internal_key_bytes(user_key, seq, t)),
        user_part(internal_key_bytes(user_key, seq, t)) == user_key,
        tag_part(internal_key_bytes(user_key, seq, t)) / 256 == seq,
        tag_part(internal_key_bytes(user_key, seq, t)) % 256 == value_type_code(t) as int,
{
    let tag = packed_tag(seq, value_type_code(t));
    let k = internal_key_bytes(user_key, seq, t);
    lemma_fixed64_roundtrip(tag, Seq::<u8>::empty());
    assert(k.subrange(k.len() - 8, k.len() as int) =~= fixed64_bytes(tag) + Seq::<u8>::empty());
    assert(user_part(k) =~= user_key);
    assert(tag == seq * 256 + value_type_code(t));
    assert(k[k.len() - 8] == fixed64_bytes(tag)[0]);
}

/// An encoded internal key.
#[derive(Debug)]
pub struct InternalKey {
    rep: Vec<u8>,
}

impl View for InternalKey {
    type V = Seq<u8>;

    closed spec fn view(&self) -> Seq<u8> {
        self.rep@
    }
}

impl InternalKey {
    pub fn new(user_key: &[u8], s: SequenceNumber, t: ValueType) -> (r: InternalKey)
        ensures
            r@ == internal_key_bytes(user_key@, s, t),
    {
        InternalKey { rep: append_internal_key(&ParseInternalKey::new(user_key, s, t)) }
    }

    pub fn encode(&self) -> (r: &[u8])
        ensures
            r@ == self@,
    {
        self.rep.as_slice()
    }

    /// An internal key holding a copy of `s`; `None` when `s` is empty.
    pub fn decode_from(s: &[u8]) -> (r: Option<InternalKey>)
        ensures
            match r {
                Some(k) => s@.len() > 0 && k@ == s@,
                None => s@.len() == 0,
            },
    {
        if s.len() == 0 {
            return None;
        }
        Some(InternalKey { rep: to_vec(s) })
    }

    pub fn user_key(&self) -> (r: &[u8])
        requires
            self@.len() >= 8,
        ensures
            r@ == user_part(self@),
    {
        extract_user_key(self.rep.as_slice())
    }

    /// The parsed key as text, or `(bad)` when it is too short to parse.
    pub fn debug_string(&self) -> (r: String)
        requires
            parsable_internal_key(self@),
        ensures
            self@.len() >= 8 ==> r@ == internal_key_text(
                lossy_text(user_part(self@)),
                (tag_part(self@) / 256) as u64,
                (tag_part(self@) % 256) as u8,
            ),
            self@.len() < 8 ==> r@ == seq!['(', 'b', 'a', 'd', ')'],
    {
        match parse_internal_key(self.rep.as_slice()) {
            Some(parsed) => parsed.debug_string(),
            None => {
                let r = String::from_str("(bad)");
                proof {
                    reveal_strlit("(bad)");
                }
                assert(r@ =~= seq!['(', 'b', 'a', 'd', ')']);
                r
            },
        }
    }
}

// ---------------------------------------------------------------------------
// Ordering of internal keys
// ---------------------------------------------------------------------------
/// Orders internal keys by user key (as the user comparator does), then by decreasing tag.
pub struct InternalKeyComparator<T: Comparator> {
    user_comparator: T,
}

/// The order on internal keys built on the user comparator's order.
pub open spec fn internal_order<T: Comparator>(a: Seq<u8>, b: Seq<u8>) -> KeyOrder {
    let r = T::order_spec(user_part(a), user_part(b));
    if r == KeyOrder::Equal {
        if tag_part(a) > tag_part(b) {
            KeyOrder::Less
        } else if tag_part(a) < tag_part(b) {
            KeyOrder::Greater
        } else {
            KeyOrder::Equal
        }
    } else {
        r
    }
}

/// The tag placed after a shortened user key: the largest sequence number, type for seek.
pub open spec fn max_seek_tag_bytes() -> Seq<u8> {
    fixed64_bytes(packed_tag(MAX_SEQUENCE_NUMBER, value_type_code(TYPE_FOR_SEEK)))
}

/// Keep a shortened user key only if it is strictly shorter than the user key and sorts
/// strictly after it; then append the largest tag.
pub open spec fn shortened_internal<T: Comparator>(user: Seq<u8>, tmp: Option<Seq<u8>>) -> Option<
    Seq<u8>,
> {
    match tmp {
        Some(t) => if t.len() < user.len() && T::order_spec(user, t) == KeyOrder::Less {
            Some(t + max_seek_tag_bytes())
        } else {
            None
        },
        None => None,
    }
}

impl<T: Comparator> InternalKeyComparator<T> {
    /// The comparator of user keys this one is built on.
    pub closed spec fn spec_user_comparator(&self) -> T {
        self.user_comparator
    }

    pub fn new(user_comparator: T) -> (r: Self)
        ensures
            r.spec_user_comparator() == user_comparator,
    {
        InternalKeyComparator { user_comparator }
    }

    pub fn user_comparator(&self) -> (r: &T)
        ensures
            *r == self.spec_user_comparator(),
    {
        &self.user_comparator
    }
}

impl<T: Comparator> Comparator for InternalKeyComparator<T> {
    open spec fn accepts(key: Seq<u8>) -> bool {
        key.len() >= 8 && T::accepts(user_part(key))
    }

    open spec fn order_spec(a: Seq<u8>, b: Seq<u8>) -> KeyOrder {
        internal_order::<T>(a, b)
    }

    open spec fn separator_spec(start: Seq<u8>, limit: Seq<u8>) -> Option<Seq<u8>> {
        shortened_internal::<T>(
            user_part(start),
            T::separator_spec(user_part(start), user_part(limit)),
        )
    }

    open spec fn successor_spec(key: Seq<u8>) -> Option<Seq<u8>> {
        shortened_internal::<T>(user_part(key), T::successor_spec(user_part(key)))
    }

    proof fn lemma_order_antisymmetric(a: Seq<u8>, b: Seq<u8>) {
        T::lemma_order_antisymmetric(user_part(a), user_part(b));
    }

    proof fn lemma_order_transitive(a: Seq<u8>, b: Seq<u8>, c: Seq<u8>) {
        let (ua, ub, uc) = (user_part(a), user_part(b), user_part(c));
        T::lemma_order_antisymmetric(ua, ub);
        T::lemma_order_antisymmetric(ub, uc);
        T::lemma_order_antisymmetric(ua, uc);
        T::lemma_order_reflexive(ua);
        T::lemma_order_reflexive(ub);
        if order_le(T::order_spec(ua, ub)) && order_le(T::order_spec(ub, uc)) {
            T::lemma_order_transitive(ua, ub, uc);
        }
        if order_le(T::order_spec(ub, ua)) && order_le(T::order_spec(ua, uc)) {
            T::lemma_order_transitive(ub, ua, uc);
        }
        if order_le(T::order_spec(ua, uc)) && order_le(T::order_spec(uc, ub)) {
            T::lemma_order_transitive(ua, uc, ub);
        }
        if order_le(T::order_spec(uc, ua)) && order_le(T::order_spec(ua, ub)) {
            T::lemma_order_transitive(uc, ua, ub);
        }
        if order_le(T::order_spec(ub, uc)) && order_le(T::order_spec(uc, ua)) {
            T::lemma_order_transitive(ub, uc, ua);
        }
    }

    proof fn lemma_order_reflexive(a: Seq<u8>) {
        T::lemma_order_reflexive(user_part(a));
    }

    fn name(&self) -> (r: &'static str)
        ensures
            r@ == "leveldb.InternalKeyComparator"@,
    {
        "leveldb.InternalKeyComparator"
    }

    fn compare(&self, a: &[u8], b: &[u8]) -> (r: KeyOrder) {
        let r = self.user_comparator.compare(extract_user_key(a), extract_user_key(b));
        if r == KeyOrder::Equal {
            let anum = decode_fixed64(&a[a.len() - 8..a.len()]);
            let bnum = decode_fixed64(&b[b.len() - 8..b.len()]);
            if anum > bnum {
                return KeyOrder::Less;
            } else if anum < bnum {
                return KeyOrder::Greater;
            }
        }
        r
    }

    fn find_shortest_separator(&self, start: &[u8], limit: &[u8]) -> (r: Option<Vec<u8>>) {
        let user_start = extract_user_key(start);
        let user_limit = extract_user_key(limit);
        match self.user_comparator.find_shortest_separator(user_start, user_limit) {
            Some(tmp) => self.shorten_with_tag(user_start, tmp),
            None => None,
        }
    }

    fn find_short_successor(&self, key: &[u8]) -> (r: Option<Vec<u8>>) {
        let user_key = extract_user_key(key);
        match self.user_comparator.find_short_successor(user_key) {
            Some(tmp) => self.shorten_with_tag(user_key, tmp),
            None => None,
        }
    }
}

impl<T: Comparator> InternalKeyComparator<T> {
    fn shorten_with_tag(&self, user: &[u8], tmp: Vec<u8>) -> (r: Option<Vec<u8>>)
        requires
            T::accepts(user@),
            T::accepts(tmp@),
        ensures
            match r {
                Some(v) => shortened_internal::<T>(user@, Some(tmp@)) == Some(v@) && Self::accepts(
                    v@,
                ),
                None => shortened_internal::<T>(user@, Some(tmp@)) is None,
            },
    {
        let mut tmp = tmp;
        if tmp.len() < user.len() && self.user_comparator.compare(user, tmp.as_slice())
            == KeyOrder::Less {
            let ghost t = tmp@;
            let mut tag = put_fixed64(
                pack_sequence_and_type(MAX_SEQUENCE_NUMBER, TYPE_FOR_SEEK.as_u8()),
            );
            tmp.append(&mut tag);
            assert(user_part(tmp@) =~= t);
            return Some(tmp);
        }
        None
    }
}

// ---------------------------------------------------------------------------
// Lookup keys
// ---------------------------------------------------------------------------
/// A key for looking up a user key as of a sequence number: the internal key's length as a
/// varint32, then the internal key: the user key and the tag (largest type for seek) as a
/// fixed64.
#[derive(Debug)]
pub struct LookupKey {
    data: Vec<u8>,
    kstart: usize,
    end: usize,
}

/// The bytes of the lookup key for `user_key` at `seq`.
pub open spec fn lookup_key_bytes(user_key: Seq<u8>, seq: u64) -> Seq<u8> {
    varint_bytes(((user_key.len() + 8) as u32) as nat) + internal_key_bytes(user_key, seq, TYPE_FOR_SEEK)
}

impl LookupKey {
    /// All the bytes of the key.
    pub closed spec fn data(&self) -> Seq<u8> {
        self.data@
    }

    /// Where the user key starts.
    pub closed spec fn key_start(&self) -> nat {
        self.kstart as nat
    }

    /// Where the key ends.
    pub closed spec fn key_end(&self) -> nat {
        self.end as nat
    }

    /// The internal key lies from `key_start` to the end, and holds at least its tag.
    pub closed spec fn wf(&self) -> bool {
        self.kstart + 8 <= self.end && self.end == self.data@.len()
    }

    pub fn new(user_key: &[u8], seq: SequenceNumber) -> (r: Self)
        requires
            user_key@.len() + 8 <= usize::MAX,
        ensures
            r.wf(),
            r.data() == lookup_key_bytes(user_key@, seq),
            r.key_start() == varint_bytes(((user_key@.len() + 8) as u32) as nat).len(),
            r.key_end() == r.data().len(),
            r.data().subrange(r.key_start() as int, r.key_end() as int) == internal_key_bytes(
                user_key@,
                seq,
                TYPE_FOR_SEEK,
            ),
            r.data().subrange(r.key_start() as int, r.key_end() - 8) == user_key@,
    {
        let usize = user_key.len();
        let mut data: Vec<u8> = Vec::new();
        let mut len = encode_varint32((usize + 8) as u32);
        data.append(&mut len);
        let kstart = data.len();
        append_slice(&mut data, user_key);
        let mut tag = put_fixed64(pack_sequence_and_type(seq, TYPE_FOR_SEEK.as_u8()));
        data.append(&mut tag);
        let end = data.len();
        proof {
            assert(data@ =~= lookup_key_bytes(user_key@, seq));
            assert(data@.subrange(kstart as int, end as int) =~= internal_key_bytes(user_key@, seq, TYPE_FOR_SEEK));
            assert(data@.subrange(kstart as int, end - 8) =~= user_key@);
        }
        LookupKey { data, kstart, end }
    }

    /// The whole key, suitable for a memtable lookup.
    pub fn memtable_key(&self) -> (r: &[u8])
        ensures
            r@ == self.data(),
    {
        self.data.as_slice()
    }

    /// The internal key: the user key and the tag.
    pub fn internal_key(&self) -> (r: &[u8])
        requires
            self.wf(),
        ensures
            r@ == self.data().subrange(self.key_start() as int, self.key_end() as int),
    {
        &self.data[self.kstart..self.end]
    }

    /// The user key: the internal key without its tag.
    pub fn user_key(&self) -> (r: &[u8])
        requires
            self.wf(),
        ensures
            r@ == self.data().subrange(self.key_start() as int, self.key_end() - 8),
    {
        &self.data[self.kstart..self.end - 8]
    }
}

} // verus!
