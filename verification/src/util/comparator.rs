//! Orderings on byte strings.
use crate::util::bytes::to_vec;
use vstd::prelude::*;

verus! {

/// The result of comparing two keys.
#[derive(Clone, Copy, Debug, PartialEq, Eq, Structural)]
pub enum KeyOrder {
    Less,
    Equal,
    Greater,
}

/// `a` sorts before or together with `b`.
pub open spec fn order_le(o: KeyOrder) -> bool {
    o != KeyOrder::Greater
}

/// A total order on the byte strings it accepts, together with the two shortening
/// helpers that table building uses.
pub trait Comparator {
    /// The keys this comparator can compare.
    spec fn accepts(key: Seq<u8>) -> bool;

    /// The order this comparator implements.
    spec fn order_spec(a: Seq<u8>, b: Seq<u8>) -> KeyOrder;

    /// What `find_shortest_separator` returns.
    spec fn separator_spec(start: Seq<u8>, limit: Seq<u8>) -> Option<Seq<u8>>;

    /// What `find_short_successor` returns.
    spec fn successor_spec(key: Seq<u8>) -> Option<Seq<u8>>;

    /// Swapping the arguments flips the order.
    proof fn lemma_order_antisymmetric(a: Seq<u8>, b: Seq<u8>)
        requires
            Self::accepts(a),
            Self::accepts(b),
        ensures
            Self::order_spec(a, b) == KeyOrder::Less <==> Self::order_spec(b, a) == KeyOrder::Greater,
            Self::order_spec(a, b) == KeyOrder::Equal <==> Self::order_spec(b, a) == KeyOrder::Equal,
    ;

    /// The order is transitive, strictly so when either step is strict.
    proof fn lemma_order_transitive(a: Seq<u8>, b: Seq<u8>, c: Seq<u8>)
        requires
            Self::accepts(a),
            Self::accepts(b),
            Self::accepts(c),
            order_le(Self::order_spec(a, b)),
            order_le(Self::order_spec(b, c)),
        ensures
            order_le(Self::order_spec(a, c)),
            Self::order_spec(a, b) == KeyOrder::Less || Self::order_spec(b, c) == KeyOrder::Less
                ==> Self::order_spec(a, c) == KeyOrder::Less,
    ;

    /// Every key compares equal to itself.
    proof fn lemma_order_reflexive(a: Seq<u8>)
        requires
            Self::accepts(a),
        ensures
            Self::order_spec(a, a) == KeyOrder::Equal,
    ;

    fn name(&self) -> &'static str;

    fn compare(&self, a: &[u8], b: &[u8]) -> (r: KeyOrder)
        requires
            Self::accepts(a@),
            Self::accepts(b@),
        ensures
            r == Self::order_spec(a@, b@),
    ;

    fn find_shortest_separator(&self, start: &[u8], limit: &[u8]) -> (r: Option<Vec<u8>>)
        requires
            Self::accepts(start@),
            Self::accepts(limit@),
        ensures
            match r {
                Some(v) => Self::separator_spec(start@, limit@) == Some(v@) && Self::accepts(v@),
                None => Self::separator_spec(start@, limit@) is None,
            },
    ;

    fn find_short_successor(&self, key: &[u8]) -> (r: Option<Vec<u8>>)
        requires
            Self::accepts(key@),
        ensures
            match r {
                Some(v) => Self::successor_spec(key@) == Some(v@) && Self::accepts(v@),
                None => Self::successor_spec(key@) is None,
            },
    ;
}

// ---------------------------------------------------------------------------
// Bytewise order
// ---------------------------------------------------------------------------
/// Lexicographic order on byte strings, a proper prefix sorting first.
pub open spec fn lex_order(a: Seq<u8>, b: Seq<u8>) -> KeyOrder
    decreases a.len(),
{
    if a.len() == 0 {
        if b.len() == 0 {
            KeyOrder::Equal
        } else {
            KeyOrder::Less
        }
    } else if b.len() == 0 {
        KeyOrder::Greater
    } else if a[0] < b[0] {
        KeyOrder::Less
    } else if a[0] > b[0] {
        KeyOrder::Greater
    } else {
        lex_order(a.drop_first(), b.drop_first())
    }
}

/// The length of the longest common prefix of `a` and `b`.
pub open spec fn common_prefix_len(a: Seq<u8>, b: Seq<u8>) -> nat
    decreases a.len(),
{
    if a.len() == 0 || b.len() == 0 || a[0] != b[0] {
        0
    } else {
        1 + common_prefix_len(a.drop_first(), b.drop_first())
    }
}

/// The position of the first byte of `key` that is not 0xff.
pub open spec fn first_non_ff(key: Seq<u8>) -> Option<nat>
    decreases key.len(),
{
    if key.len() == 0 {
        None
    } else if key[0] != 0xff {
        Some(0nat)
    } else {
        match first_non_ff(key.drop_first()) {
            Some(i) => Some(i + 1),
            None => None,
        }
    }
}

/// The bytewise separator: `None` when one key is a prefix of the other; otherwise the
/// common prefix followed by the first differing byte of `start`, raised by one when that
/// still sorts below `limit`.
pub open spec fn bytewise_separator(start: Seq<u8>, limit: Seq<u8>) -> Option<Seq<u8>> {
    let d = common_prefix_len(start, limit);
    if d >= start.len() || d >= limit.len() {
        None
    } else if start[d as int] < 0xff && start[d as int] + 1 < limit[d as int] {
        Some(start.subrange(0, d as int).push((start[d as int] + 1) as u8))
    } else {
        Some(start.subrange(0, d as int + 1))
    }
}

/// The bytewise successor: the key up to its first byte that is not 0xff, with that byte
/// raised by one; `None` when every byte is 0xff.
pub open spec fn bytewise_successor(key: Seq<u8>) -> Option<Seq<u8>> {
    match first_non_ff(key) {
        Some(i) => Some(key.subrange(0, i as int).push((key[i as int] + 1) as u8)),
        None => None,
    }
}

pub proof fn lemma_common_prefix(a: Seq<u8>, b: Seq<u8>)
    ensures
        common_prefix_len(a, b) <= a.len(),
        common_prefix_len(a, b) <= b.len(),
        forall|j: int| 0 <= j < common_prefix_len(a, b) ==> a[j] == b[j],
        common_prefix_len(a, b) < a.len() && common_prefix_len(a, b) < b.len() ==> a[common_prefix_len(a, b) as int]
            != b[common_prefix_len(a, b) as int],
    decreases a.len(),
{
    if !(a.len() == 0 || b.len() == 0 || a[0] != b[0]) {
        lemma_common_prefix(a.drop_first(), b.drop_first());
        assert forall|j: int| 0 <= j < common_prefix_len(a, b) implies a[j] == b[j] by {
            if j > 0 {
                assert(a[j] == a.drop_first()[j - 1]);
                assert(b[j] == b.drop_first()[j - 1]);
            }
        }
    }
}

/// Lexicographic order is decided at the first differing byte.
pub proof fn lemma_lex_order_at_mismatch(a: Seq<u8>, b: Seq<u8>)
    ensures
        ({
            let d = common_prefix_len(a, b) as int;
            lex_order(a, b) == if d == a.len() && d == b.len() {
                KeyOrder::Equal
            } else if d == a.len() {
                KeyOrder::Less
            } else if d == b.len() {
                KeyOrder::Greater
            } else if a[d] < b[d] {
                KeyOrder::Less
            } else {
                KeyOrder::Greater
            }
        }),
    decreases a.len(),
{
    lemma_common_prefix(a, b);
    if !(a.len() == 0 || b.len() == 0 || a[0] != b[0]) {
        lemma_lex_order_at_mismatch(a.drop_first(), b.drop_first());
    }
}

/// Lexicographic order is equal exactly on equal strings.
pub proof fn lemma_lex_order_equal(a: Seq<u8>, b: Seq<u8>)
    ensures
        lex_order(a, b) == KeyOrder::Equal <==> a == b,
    decreases a.len(),
{
    if a.len() > 0 && b.len() > 0 && a[0] == b[0] {
        lemma_lex_order_equal(a.drop_first(), b.drop_first());
        if a.drop_first() =~= b.drop_first() {
            assert(a =~= b) by {
                assert forall|i: int| 0 <= i < a.len() implies a[i] == b[i] by {
                    if i > 0 {
                        assert(a[i] == a.drop_first()[i - 1]);
                        assert(b[i] == b.drop_first()[i - 1]);
                    }
                }
            }
        } else {
            if a == b {
                assert(a.drop_first() =~= b.drop_first());
            }
        }
    } else if a.len() == 0 && b.len() == 0 {
        assert(a =~= b);
    }
}

proof fn lemma_lex_antisymmetric(a: Seq<u8>, b: Seq<u8>)
    ensures
        lex_order(a, b) == KeyOrder::Less <==> lex_order(b, a) == KeyOrder::Greater,
        lex_order(a, b) == KeyOrder::Equal <==> lex_order(b, a) == KeyOrder::Equal,
    decreases a.len(),
{
    if a.len() > 0 && b.len() > 0 && a[0] == b[0] {
        lemma_lex_antisymmetric(a.drop_first(), b.drop_first());
    }
}

proof fn lemma_lex_transitive(a: Seq<u8>, b: Seq<u8>, c: Seq<u8>)
    requires
        order_le(lex_order(a, b)),
        order_le(lex_order(b, c)),
    ensures
        order_le(lex_order(a, c)),
        lex_order(a, b) == KeyOrder::Less || lex_order(b, c) == KeyOrder::Less ==> lex_order(a, c)
            == KeyOrder::Less,
    decreases a.len(),
{
    if a.len() > 0 && b.len() > 0 && c.len() > 0 && a[0] == b[0] && b[0] == c[0] {
        lemma_lex_transitive(a.drop_first(), b.drop_first(), c.drop_first());
    }
}

proof fn lemma_first_non_ff(key: Seq<u8>)
    ensures
        match first_non_ff(key) {
            Some(i) => i < key.len() && key[i as int] != 0xff && forall|j: int|
                0 <= j < i ==> key[j] == 0xff,
            None => forall|j: int| 0 <= j < key.len() ==> key[j] == 0xff,
        },
    decreases key.len(),
{
    if key.len() > 0 && key[0] == 0xff {
        lemma_first_non_ff(key.drop_first());
        assert forall|j: int| 0 < j < key.len() implies key[j] == key.drop_first()[j - 1] by {}
    }
}

/// For a start key that sorts below a limit key, the bytewise separator sorts below the
/// limit.
pub proof fn lemma_bytewise_separator_below_limit(start: Seq<u8>, limit: Seq<u8>)
    requires
        lex_order(start, limit) == KeyOrder::Less,
    ensures
        bytewise_separator(start, limit) matches Some(sep) ==> lex_order(sep, limit) == KeyOrder::Less,
{
    let d = common_prefix_len(start, limit);
    lemma_common_prefix(start, limit);
    lemma_lex_order_at_mismatch(start, limit);
    if let Some(sep) = bytewise_separator(start, limit) {
        assert(d < start.len() && d < limit.len());
        assert(start[d as int] < limit[d as int]);
        assert forall|j: int| 0 <= j < d implies sep[j] == limit[j] by {
            assert(sep[j] == start[j]);
        }
        lemma_prefix_len_is(sep, limit, d);
        lemma_lex_order_at_mismatch(sep, limit);
    }
}

/// For a start key that sorts below a limit key, the bytewise separator sorts at or after
/// the start key, except when it cuts the start key short: when the first byte where the
/// keys differ is not the start key's last and cannot be raised below the limit's, the
/// separator is a proper prefix of the start key and sorts before it.
pub proof fn lemma_bytewise_separator_from_start(start: Seq<u8>, limit: Seq<u8>)
    requires
        lex_order(start, limit) == KeyOrder::Less,
        ({
            let d = common_prefix_len(start, limit) as int;
            d + 1 >= start.len() || (start[d] < 0xff && start[d] + 1 < limit[d])
        }),
    ensures
        bytewise_separator(start, limit) matches Some(sep) ==> lex_order(start, sep) != KeyOrder::Greater,
{
    let d = common_prefix_len(start, limit);
    lemma_common_prefix(start, limit);
    if let Some(sep) = bytewise_separator(start, limit) {
        if start[d as int] < 0xff && start[d as int] + 1 < limit[d as int] {
            assert forall|j: int| 0 <= j < d implies start[j] == sep[j] by {}
            lemma_prefix_len_is(start, sep, d);
            lemma_lex_order_at_mismatch(start, sep);
        } else {
            assert(sep =~= start);
            lemma_lex_order_equal(start, sep);
        }
    }
}

/// The bytewise successor of a key sorts after it.
pub proof fn lemma_bytewise_successor_after(key: Seq<u8>)
    ensures
        bytewise_successor(key) matches Some(s) ==> lex_order(key, s) == KeyOrder::Less,
{
    lemma_first_non_ff(key);
    if let Some(s) = bytewise_successor(key) {
        let i = first_non_ff(key)->0;
        assert forall|j: int| 0 <= j < i implies key[j] == s[j] by {}
        lemma_prefix_len_is(key, s, i);
        lemma_lex_order_at_mismatch(key, s);
    }
}

/// Orders keys byte by byte.
#[derive(Clone, Copy, Debug)]
pub struct BytewiseComparatorImpl;

impl Comparator for BytewiseComparatorImpl {
    open spec fn accepts(key: Seq<u8>) -> bool {
        true
    }

    open spec fn order_spec(a: Seq<u8>, b: Seq<u8>) -> KeyOrder {
        lex_order(a, b)
    }

    open spec fn separator_spec(start: Seq<u8>, limit: Seq<u8>) -> Option<Seq<u8>> {
        bytewise_separator(start, limit)
    }

    open spec fn successor_spec(key: Seq<u8>) -> Option<Seq<u8>> {
        bytewise_successor(key)
    }

    proof fn lemma_order_antisymmetric(a: Seq<u8>, b: Seq<u8>) {
        lemma_lex_antisymmetric(a, b);
    }

    proof fn lemma_order_transitive(a: Seq<u8>, b: Seq<u8>, c: Seq<u8>) {
        lemma_lex_transitive(a, b, c);
    }

    proof fn lemma_order_reflexive(a: Seq<u8>) {
        lemma_lex_order_equal(a, a);
    }

    fn name(&self) -> (r: &'static str)
        ensures
            r@ == "leveldb.BytewiseComparator"@,
    {
        "leveldb.BytewiseComparator"
    }

    fn compare(&self, a: &[u8], b: &[u8]) -> (r: KeyOrder) {
        bytewise_compare(a, b)
    }

    fn find_shortest_separator(&self, start: &[u8], limit: &[u8]) -> (r: Option<Vec<u8>>) {
        let min_size = if start.len() < limit.len() {
            start.len()
        } else {
            limit.len()
        };
        let mut diff_index: usize = 0;
        while diff_index < min_size && start[diff_index] == limit[diff_index]
            invariant
                min_size <= start@.len(),
                min_size <= limit@.len(),
                min_size == start@.len() || min_size == limit@.len(),
                diff_index <= min_size,
                forall|j: int| 0 <= j < diff_index ==> start@[j] == limit@[j],
            decreases min_size - diff_index,
        {
            diff_index = diff_index + 1;
        }
        proof {
            lemma_prefix_len_is(start@, limit@, diff_index as nat);
        }
        if diff_index >= min_size {
            None
        } else {
            let diff_byte = start[diff_index];
            if diff_byte < 0xff && diff_byte + 1 < limit[diff_index] {
                let mut result = to_vec(&start[0..diff_index]);
                result.push(diff_byte + 1);
                return Some(result);
            }
            Some(to_vec(&start[0..diff_index + 1]))
        }
    }

    fn find_short_successor(&self, key: &[u8]) -> (r: Option<Vec<u8>>) {
        let mut i: usize = 0;
        while i < key.len()
            invariant
                i <= key@.len(),
                forall|j: int| 0 <= j < i ==> key@[j] == 0xff,
            decreases key@.len() - i,
        {
            let k = key[i];
            if k != 0xff {
                let mut result = to_vec(&key[0..i]);
                result.push(k + 1);
                proof {
                    lemma_first_non_ff_is(key@, i as nat);
                }
                return Some(result);
            }
            i = i + 1;
        }
        proof {
            lemma_first_non_ff(key@);
            if first_non_ff(key@) is Some {
                let j = first_non_ff(key@)->0;
                assert(key@[j as int] == 0xff);
            }
        }
        None
    }
}

proof fn lemma_first_non_ff_is(key: Seq<u8>, i: nat)
    requires
        i < key.len(),
        key[i as int] != 0xff,
        forall|j: int| 0 <= j < i ==> key[j] == 0xff,
    ensures
        first_non_ff(key) == Some(i),
    decreases i,
{
    if i > 0 {
        lemma_first_non_ff_is(key.drop_first(), (i - 1) as nat);
    }
}

proof fn lemma_prefix_len_is(a: Seq<u8>, b: Seq<u8>, d: nat)
    requires
        d <= a.len(),
        d <= b.len(),
        forall|j: int| 0 <= j < d ==> a[j] == b[j],
        d == a.len() || d == b.len() || a[d as int] != b[d as int],
    ensures
        common_prefix_len(a, b) == d,
    decreases d,
{
    if d > 0 {
        lemma_prefix_len_is(a.drop_first(), b.drop_first(), (d - 1) as nat);
    }
}

/// Lexicographic comparison of two byte strings.
pub fn bytewise_compare(a: &[u8], b: &[u8]) -> (r: KeyOrder)
    ensures
        r == lex_order(a@, b@),
{
    let min_size = if a.len() < b.len() {
        a.len()
    } else {
        b.len()
    };
    let mut i: usize = 0;
    while i < min_size
        invariant
            min_size <= a@.len(),
            min_size <= b@.len(),
            min_size == a@.len() || min_size == b@.len(),
            i <= min_size,
            forall|j: int| 0 <= j < i ==> a@[j] == b@[j],
        decreases min_size - i,
    {
        if a[i] != b[i] {
            proof {
                lemma_prefix_len_is(a@, b@, i as nat);
                lemma_lex_order_at_mismatch(a@, b@);
            }
            if a[i] < b[i] {
                return KeyOrder::Less;
            } else {
                return KeyOrder::Greater;
            }
        }
        i = i + 1;
    }
    proof {
        lemma_prefix_len_is(a@, b@, i as nat);
        lemma_lex_order_at_mismatch(a@, b@);
    }
    if a.len() < b.len() {
        KeyOrder::Less
    } else if a.len() > b.len() {
        KeyOrder::Greater
    } else {
        KeyOrder::Equal
    }
}

/// `v` with its elements in reverse order.
pub open spec fn reversed(v: Seq<u8>) -> Seq<u8> {
    Seq::new(v.len(), |i: int| v[v.len() - 1 - i])
}

/// Reverses each string in an optional result.
pub open spec fn reversed_option(o: Option<Seq<u8>>) -> Option<Seq<u8>> {
    match o {
        Some(v) => Some(reversed(v)),
        None => None,
    }
}

/// The bytes of `s` from last to first.
pub fn reverse_bytes(s: &[u8]) -> (r: Vec<u8>)
    ensures
        r@ == reversed(s@),
{
    let mut r: Vec<u8> = Vec::with_capacity(s.len());
    let mut i: usize = s.len();
    while i > 0
        invariant
            i <= s@.len(),
            r@.len() == s@.len() - i,
            forall|j: int| 0 <= j < r@.len() ==> r@[j] == s@[s@.len() - 1 - j],
        decreases i,
    {
        i = i - 1;
        r.push(s[i]);
    }
    assert(r@ =~= reversed(s@));
    r
}

/// Reverses each string in an optional result.
fn reverse_option(o: Option<Vec<u8>>) -> (r: Option<Vec<u8>>)
    ensures
        match o {
            Some(v) => r is Some && r->0@ == reversed(v@),
            None => r is None,
        },
{
    match o {
        Some(v) => Some(reverse_bytes(v.as_slice())),
        None => None,
    }
}

/// Orders keys byte by byte from their last byte to their first.
#[derive(Clone, Copy, Debug)]
pub struct ReverseBytewiseComparator;

impl Comparator for ReverseBytewiseComparator {
    open spec fn accepts(key: Seq<u8>) -> bool {
        true
    }

    open spec fn order_spec(a: Seq<u8>, b: Seq<u8>) -> KeyOrder {
        lex_order(reversed(a), reversed(b))
    }

    open spec fn separator_spec(start: Seq<u8>, limit: Seq<u8>) -> Option<Seq<u8>> {
        reversed_option(bytewise_separator(reversed(start), reversed(limit)))
    }

    open spec fn successor_spec(key: Seq<u8>) -> Option<Seq<u8>> {
        reversed_option(bytewise_successor(reversed(key)))
    }

    proof fn lemma_order_antisymmetric(a: Seq<u8>, b: Seq<u8>) {
        lemma_lex_antisymmetric(reversed(a), reversed(b));
    }

    proof fn lemma_order_transitive(a: Seq<u8>, b: Seq<u8>, c: Seq<u8>) {
        lemma_lex_transitive(reversed(a), reversed(b), reversed(c));
    }

    proof fn lemma_order_reflexive(a: Seq<u8>) {
        lemma_lex_order_equal(reversed(a), reversed(a));
    }

    fn name(&self) -> (r: &'static str)
        ensures
            r@ == "leveldb.ReverseBytewiseComparator"@,
    {
        "leveldb.ReverseBytewiseComparator"
    }

    fn compare(&self, a: &[u8], b: &[u8]) -> (r: KeyOrder) {
        let ra = reverse_bytes(a);
        let rb = reverse_bytes(b);
        bytewise_compare(ra.as_slice(), rb.as_slice())
    }

    fn find_shortest_separator(&self, start: &[u8], limit: &[u8]) -> (r: Option<Vec<u8>>) {
        let rs = reverse_bytes(start);
        let rl = reverse_bytes(limit);
        reverse_option(BytewiseComparatorImpl.find_shortest_separator(rs.as_slice(), rl.as_slice()))
    }

    fn find_short_successor(&self, key: &[u8]) -> (r: Option<Vec<u8>>) {
        let rk = reverse_bytes(key);
        reverse_option(BytewiseComparatorImpl.find_short_successor(rk.as_slice()))
    }
}

} // verus!
