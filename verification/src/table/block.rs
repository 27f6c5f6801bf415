//! Reading a data block: prefix-compressed entries followed by an array of restart points.
//!
//! Each entry is `varint32(shared) varint32(non_shared) varint32(value_len)`, then the
//! `non_shared` bytes that follow the first `shared` bytes of the previous key, then the
//! value. The block ends with one fixed32 offset per restart point and their count.
use crate::db::error::DbError;
use crate::db::iterator::{new_error_iterator, DBIterator, EmptyDBIterator};
use crate::table::format::BlockContent;
use crate::util::bytes::to_vec;
use crate::util::comparator::{Comparator, KeyOrder};
use crate::util::coding::{
    decode_fixed32, fixed32_value, get_varint32, lemma_varint_size_bounds, spec_get_varint32,
    varint_size, varint_value,
};
use vstd::prelude::*;

verus! {

// ---------------------------------------------------------------------------
// Entries
// ---------------------------------------------------------------------------
/// The header of the entry at the front of `p`: the header's length, the length of the
/// key prefix shared with the previous key, the length of the rest of the key, and the
/// length of the value. `None` when the header cannot be read or the entry runs past
/// the end of `p`.
pub open spec fn spec_decode_entry(p: Seq<u8>) -> Option<(nat, u32, u32, u32)> {
    if p.len() < 3 {
        None
    } else {
        match spec_get_varint32(p) {
            None => None,
            Some((n1, shared)) => match spec_get_varint32(p.skip(n1 as int)) {
                None => None,
                Some((n2, non_shared)) => match spec_get_varint32(p.skip((n1 + n2) as int)) {
                    None => None,
                    Some((n3, value_len)) => {
                        let h = n1 + n2 + n3;
                        if p.len() < h + non_shared + value_len {
                            None
                        } else {
                            Some((h as nat, shared, non_shared, value_len))
                        }
                    },
                },
            },
        }
    }
}

/// The three header varints each take at least one byte.
pub proof fn lemma_decode_entry_header(p: Seq<u8>)
    ensures
        spec_decode_entry(p) matches Some((h, s, ns, vl)) ==> 3 <= h && h + ns + vl <= p.len(),
{
    if p.len() >= 3 {
        lemma_varint_size_bounds(p, 5);
        if let Some((n1, _)) = spec_get_varint32(p) {
            lemma_varint_size_bounds(p.skip(n1 as int), 5);
            if let Some((n2, _)) = spec_get_varint32(p.skip(n1 as int)) {
                lemma_varint_size_bounds(p.skip((n1 + n2) as int), 5);
            }
        }
    }
}

/// What reading one entry at offset `off` gives, given the key of the entry before it
/// and the end `limit` of the entry area.
pub enum Step {
    /// `off` is at or past the end of the entries.
    End,
    /// The entry cannot be read, or it shares more bytes than the previous key has.
    Corrupt,
    /// The entry's full key, where its value lies, and where the next entry starts.
    Entry { key: Seq<u8>, value_start: nat, value_len: nat, next: nat },
}

/// Reading the entry at `off` of `data`, the previous key being `prev`.
pub open spec fn step(data: Seq<u8>, limit: nat, off: nat, prev: Seq<u8>) -> Step {
    if off >= limit {
        Step::End
    } else {
        match spec_decode_entry(data.skip(off as int)) {
            None => Step::Corrupt,
            Some((h, shared, non_shared, value_len)) => if prev.len() < shared {
                Step::Corrupt
            } else {
                let ks = (off + h) as int;
                Step::Entry {
                    key: prev.take(shared as int) + data.subrange(ks, ks + non_shared),
                    value_start: (ks + non_shared) as nat,
                    value_len: value_len as nat,
                    next: (ks + non_shared + value_len) as nat,
                }
            },
        }
    }
}

/// A step that reads an entry moves forward and stays within `data`.
pub proof fn lemma_step_advances(data: Seq<u8>, limit: nat, off: nat, prev: Seq<u8>)
    requires
        off <= data.len(),
    ensures
        step(data, limit, off, prev) matches Step::Entry { key, value_start, value_len, next }
            ==> off + 3 <= next && next <= data.len() && value_start + value_len == next
            && off <= value_start,
{
    lemma_decode_entry_header(data.skip(off as int));
}

/// The key/value pairs read from `off` up to `limit`, or `None` if a corrupt entry is met.
pub open spec fn parse_entries(data: Seq<u8>, limit: nat, off: nat, prev: Seq<u8>) -> Option<
    Seq<(Seq<u8>, Seq<u8>)>,
>
    decreases data.len() - off,
{
    if off > data.len() {
        None
    } else {
        match step(data, limit, off, prev) {
            Step::End => Some(Seq::empty()),
            Step::Corrupt => None,
            Step::Entry { key, value_start, value_len, next } => {
                proof {
                    lemma_step_advances(data, limit, off, prev);
                }
                match parse_entries(data, limit, next, key) {
                    Some(rest) => Some(
                        seq![(key, data.subrange(value_start as int, next as int))] + rest,
                    ),
                    None => None,
                }
            },
        }
    }
}

/// Decodes the header of the entry at the front of `data`: the rest of the slice after
/// the header, and the three lengths.
fn decode_entry(data: &[u8]) -> (r: Option<(usize, u32, u32, u32)>)
    ensures
        match r {
            Some((h, s, ns, vl)) => spec_decode_entry(data@) == Some((h as nat, s, ns, vl)),
            None => spec_decode_entry(data@) is None,
        },
{
    if data.len() < 3 {
        return None;
    }
    let mut shared = data[0] as u32;
    let mut non_shared = data[1] as u32;
    let mut value_length = data[2] as u32;
    let mut size: usize = 0;
    if (shared | non_shared | value_length) < 128 {
        proof {
            assert((shared | non_shared | value_length) < 128 ==> shared < 128 && non_shared < 128
                && value_length < 128) by (bit_vector);
            let p = data@;
            assert(varint_size(p, 5) == Some(1nat));
            assert(varint_value(p, 1) == p[0] % 128 + 128 * varint_value(p.drop_first(), 0));
            let p1 = p.skip(1);
            assert(p1[0] == p[1]);
            assert(varint_size(p1, 5) == Some(1nat));
            assert(varint_value(p1, 1) == p1[0] % 128 + 128 * varint_value(p1.drop_first(), 0));
            let p2 = p.skip(2);
            assert(p2[0] == p[2]);
            assert(varint_size(p2, 5) == Some(1nat));
            assert(varint_value(p2, 1) == p2[0] % 128 + 128 * varint_value(p2.drop_first(), 0));
        }
        size = 3;
    } else {
        match get_varint32(data) {
            None => return None,
            Some((s, sd)) => {
                shared = sd;
                size = s;
            },
        }
        proof {
            lemma_varint_size_bounds(data@, 5);
        }
        let rest1 = &data[size..data.len()];
        assert(rest1@ =~= data@.skip(size as int));
        proof {
            lemma_varint_size_bounds(rest1@, 5);
        }
        match get_varint32(rest1) {
            None => return None,
            Some((s, nsd)) => {
                non_shared = nsd;
                size = size + s;
            },
        }
        proof {
            lemma_varint_size_bounds(rest1@, 5);
        }
        let rest2 = &data[size..data.len()];
        assert(rest2@ =~= data@.skip(size as int));
        proof {
            lemma_varint_size_bounds(rest2@, 5);
        }
        match get_varint32(rest2) {
            None => return None,
            Some((s, vl)) => {
                value_length = vl;
                size = size + s;
            },
        }
        proof {
            lemma_varint_size_bounds(rest2@, 5);
        }
    }
    if (data.len() as u64) < size as u64 + non_shared as u64 + value_length as u64 {
        return None;
    }
    Some((size, shared, non_shared, value_length))
}

// ---------------------------------------------------------------------------
// Blocks
// ---------------------------------------------------------------------------
/// The restart count stored in the last four bytes of `data`.
pub open spec fn stored_restarts(data: Seq<u8>) -> u32 {
    fixed32_value(data.skip(data.len() - 4))
}

/// Whether `data` is long enough for its restart array: at least the count, and the
/// count no more than the array it claims.
pub open spec fn block_layout_ok(data: Seq<u8>) -> bool {
    data.len() >= 4 && stored_restarts(data) <= (data.len() - 4) / 4
}

/// Where the restart array of a well laid out block starts, which is also where its
/// entries end.
pub open spec fn restart_array_start(data: Seq<u8>) -> nat {
    (data.len() - (stored_restarts(data) + 1) * 4) as nat
}

/// The restart offset stored at index `i` of the restart array starting at `restarts`.
pub open spec fn restart_point(data: Seq<u8>, restarts: nat, i: nat) -> nat {
    fixed32_value(data.skip((restarts + 4 * i) as int)) as nat
}

/// The entries of a well laid out block, read from its first byte.
pub open spec fn block_entries(data: Seq<u8>) -> Option<Seq<(Seq<u8>, Seq<u8>)>> {
    if block_layout_ok(data) {
        parse_entries(data, restart_array_start(data), 0, Seq::empty())
    } else {
        None
    }
}

/// A data block: its bytes, the part of them in use, and where the restart array starts.
#[derive(Debug)]
pub struct Block {
    data: Vec<u8>,
    size: isize,
    restart_offset: u32,
    owned: bool,
}

impl Block {
    /// The bytes of the block.
    pub closed spec fn spec_data(&self) -> Seq<u8> {
        self.data@
    }

    /// The number of bytes in use: all of them when the layout is sound, else zero.
    pub closed spec fn spec_size(&self) -> int {
        self.size as int
    }

    /// Where the restart array starts.
    pub closed spec fn spec_restart_offset(&self) -> nat {
        self.restart_offset as nat
    }

    /// The size and restart offset agree with the bytes.
    #[verifier::type_invariant]
    closed spec fn block_inv(self) -> bool {
        let data = self.data@;
        &&& data.len() <= u32::MAX
        &&& data.len() <= isize::MAX
        &&& block_layout_ok(data) ==> self.size == data.len() && self.restart_offset
            == restart_array_start(data)
        &&& !block_layout_ok(data) ==> self.size == 0
    }

    /// The restart count stored at the end of the block.
    fn num_restarts(&self) -> (r: u32)
        requires
            block_layout_ok(self.spec_data()),
        ensures
            r == stored_restarts(self.spec_data()),
    {
        proof {
            use_type_invariant(self);
        }
        let n = self.data.len();
        decode_fixed32(&self.data[n - 4..n])
    }

    /// Whether every restart point of a well laid out block lies within the block.
    pub fn restarts_within(&self) -> (r: bool)
        ensures
            block_layout_ok(self.spec_data()) ==> (r == restarts_in_bounds(self.spec_data())),
    {
        proof {
            use_type_invariant(self);
        }
        if self.size == 0 {
            return false;
        }
        let ghost data = self.data@;
        let len = self.data.len();
        let num = self.num_restarts();
        let start = self.restart_offset as usize;
        let mut i: u32 = 0;
        while i < num
            invariant
                block_layout_ok(data),
                data == self.data@,
                len == data.len(),
                num == stored_restarts(data),
                start == restart_array_start(data),
                i <= num,
                forall|j: nat| j < i ==> #[trigger] restart_point(data, start as nat, j) <= data.len(),
            decreases num - i,
        {
            let at = start + 4 * (i as usize);
            let p = decode_fixed32(&self.data[at..len]);
            proof {
                assert(self.data@.subrange(at as int, len as int) =~= data.skip(at as int));
            }
            if p as usize > len {
                assert(restart_point(data, start as nat, i as nat) == p);
                assert(!restarts_in_bounds(data));
                return false;
            }
            i = i + 1;
        }
        true
    }

    /// Takes over the bytes of `block_content`. A block shorter than its restart count, or
    /// whose count claims more restart points than it has room for, is given size zero.
    pub fn new(block_content: BlockContent) -> (b: Block)
        requires
            block_content.data@.len() <= u32::MAX,
            block_content.data@.len() <= isize::MAX,
        ensures
            b.spec_data() == block_content.data@,
            block_layout_ok(b.spec_data()) ==> b.spec_size() == b.spec_data().len()
                && b.spec_restart_offset() == restart_array_start(b.spec_data()),
            !block_layout_ok(b.spec_data()) ==> b.spec_size() == 0,
    {
        let data = block_content.data;
        let len = data.len();
        let mut size: isize = len as isize;
        let mut restart_offset: u32 = 0;
        if len < 4 {
            size = 0;
        } else {
            let max_restarts_allowed = (len - 4) / 4;
            let n = decode_fixed32(&data[len - 4..len]);
            proof {
                assert(data@.subrange(len - 4, len as int) =~= data@.skip(data@.len() - 4));
            }
            if n as usize > max_restarts_allowed {
                size = 0;
            } else {
                assert((n + 1) * 4 <= len) by (nonlinear_arith)
                    requires
                        n <= max_restarts_allowed,
                        max_restarts_allowed == (len - 4) / 4,
                        len >= 4,
                ;
                restart_offset = len as u32 - (n + 1) * 4;
            }
        }
        Block { data, size, restart_offset, owned: block_content.heap_allocated }
    }

    /// The number of bytes in use.
    pub fn size(&self) -> (r: isize)
        ensures
            r == self.spec_size(),
    {
        self.size
    }

    /// An iterator over the block: one reporting corruption when the block is too short
    /// for its restart array, an empty one when it has no restart points, and otherwise one
    /// positioned before its first entry. The iterator works on a copy of the bytes.
    pub fn new_iterator<C: Comparator>(&self, comparator: C) -> (r: BlockIterator<C>)
        requires
            block_layout_ok(self.spec_data()) ==> iterable::<C>(self.spec_data()),
        ensures
            new_iterator_result(self.spec_data(), r),
    {
        proof {
            use_type_invariant(self);
        }
        let data = to_vec(self.data.as_slice());
        block_iterator(data, self.size, self.restart_offset, comparator)
    }

    /// Same as [`Block::new_iterator`], handing the bytes over to the iterator.
    pub fn new_iterator_into<C: Comparator>(self, comparator: C) -> (r: BlockIterator<C>)
        requires
            block_layout_ok(self.spec_data()) ==> iterable::<C>(self.spec_data()),
        ensures
            new_iterator_result(self.spec_data(), r),
    {
        proof {
            use_type_invariant(&self);
        }
        let size = self.size;
        let restart_offset = self.restart_offset;
        block_iterator(self.data, size, restart_offset, comparator)
    }
}

/// Where a new iterator over a well laid out block stands: past the end, with no key.
pub open spec fn fresh_pos(data: Seq<u8>) -> IterPos {
    IterPos {
        current: restart_array_start(data),
        restart_index: stored_restarts(data) as nat,
        next_entry_offset: 0,
        key: Seq::empty(),
        value_start: 0,
        value_end: 0,
        corrupt: false,
    }
}

/// What a new iterator over a block of bytes `data` is: a corruption report for a block
/// too short for its restart array, an empty iterator for a block without restart points,
/// and otherwise an iterator over `data` that stands past the end.
pub open spec fn new_iterator_result<C: Comparator>(data: Seq<u8>, r: BlockIterator<C>) -> bool {
    if !block_layout_ok(data) {
        r matches BlockIterator::Empty(e) && e.spec_status() == Some("bad block contents"@)
    } else if stored_restarts(data) == 0 {
        r matches BlockIterator::Empty(e) && e.spec_status() is None
    } else {
        r matches BlockIterator::Entries(it) && it.wf() && it.spec_data() == data
            && it.spec_restarts() == restart_array_start(data) && it.spec_num_restarts()
            == stored_restarts(data) && it.pos() == fresh_pos(data)
    }
}

/// Builds the iterator for a block whose size and restart offset are already checked.
fn block_iterator<C: Comparator>(data: Vec<u8>, size: isize, restart_offset: u32, comparator: C) -> (r: BlockIterator<C>)
    requires
        data@.len() <= u32::MAX,
        block_layout_ok(data@) ==> size == data@.len() && restart_offset == restart_array_start(data@),
        !block_layout_ok(data@) ==> size == 0,
        block_layout_ok(data@) ==> iterable::<C>(data@),
    ensures
        new_iterator_result(data@, r),
{
    if size < 4 {
        return BlockIterator::Empty(new_error_iterator(String::from_str("bad block contents")));
    }
    let n = data.len();
    let num_restarts = decode_fixed32(&data[n - 4..n]);
    proof {
        assert(data@.subrange(n - 4, n as int) =~= data@.skip(data@.len() - 4));
    }
    if num_restarts == 0 {
        return BlockIterator::Empty(EmptyDBIterator::new());
    }
    let it = BlockIter {
        comparator,
        data,
        restarts: restart_offset,
        num_restarts,
        current: restart_offset,
        restart_index: num_restarts,
        next_entry_offset: 0,
        key: Vec::new(),
        value_start: 0,
        value_end: 0,
        status: Ok(()),
    };
    proof {
        assert(it.wf()) by {
            reveal(iterable);
        }
    }
    BlockIterator::Entries(it)
}

// ---------------------------------------------------------------------------
// Iterating over a block
// ---------------------------------------------------------------------------
/// Where a block iterator stands: the offset of the current entry (the start of the
/// restart array when there is none), the restart point at or before it, where the next
/// entry starts, the current key, where the current value lies, and whether a corrupt
/// entry was met.
pub struct IterPos {
    pub current: nat,
    pub restart_index: nat,
    pub next_entry_offset: nat,
    pub key: Seq<u8>,
    pub value_start: nat,
    pub value_end: nat,
    pub corrupt: bool,
}

/// The restart index that reading an entry at `current` leaves: the last restart point
/// from `ri` on whose successor does not lie before `current`.
pub open spec fn advance_restart(data: Seq<u8>, restarts: nat, num: nat, ri: nat, current: nat) -> nat
    decreases num - ri,
{
    if ri + 1 < num && restart_point(data, restarts, ri + 1) < current {
        advance_restart(data, restarts, num, ri + 1, current)
    } else {
        ri
    }
}

/// Reading the entry at `p.next_entry_offset`: the new position, and whether an entry was
/// read.
pub open spec fn parse_next(data: Seq<u8>, restarts: nat, num: nat, p: IterPos) -> (IterPos, bool) {
    match step(data, restarts, p.next_entry_offset, p.key) {
        Step::End => (IterPos { current: restarts, restart_index: num, ..p }, false),
        Step::Corrupt => (
            IterPos {
                current: restarts,
                restart_index: num,
                key: Seq::empty(),
                value_start: 0,
                value_end: 0,
                corrupt: true,
                ..p
            },
            false,
        ),
        Step::Entry { key, value_start, value_len, next } => (
            IterPos {
                current: p.next_entry_offset,
                restart_index: advance_restart(data, restarts, num, p.restart_index, p.next_entry_offset),
                next_entry_offset: next,
                key,
                value_start,
                value_end: value_start + value_len,
                ..p
            },
            true,
        ),
    }
}

/// The position from which the next read starts at restart point `i`.
pub open spec fn at_restart(data: Seq<u8>, restarts: nat, i: nat, p: IterPos) -> IterPos {
    IterPos {
        key: Seq::empty(),
        restart_index: i,
        value_start: restart_point(data, restarts, i),
        value_end: data.len(),
        next_entry_offset: restart_point(data, restarts, i),
        ..p
    }
}

/// Reading entries while each read succeeds and the following entry starts before
/// `bound`.
pub open spec fn scan_before(data: Seq<u8>, restarts: nat, num: nat, p: IterPos, bound: nat) -> IterPos
    decreases data.len() - p.next_entry_offset,
{
    let (q, ok) = parse_next(data, restarts, num, p);
    if ok && q.next_entry_offset < bound && p.next_entry_offset <= data.len() {
        proof {
            lemma_step_advances(data, restarts, p.next_entry_offset, p.key);
        }
        scan_before(data, restarts, num, q, bound)
    } else {
        q
    }
}

/// Reading entries until a read fails or reaches a key at or after `target`.
pub open spec fn scan_to_target<C: Comparator>(
    data: Seq<u8>,
    restarts: nat,
    num: nat,
    p: IterPos,
    target: Seq<u8>,
) -> IterPos
    decreases data.len() - p.next_entry_offset,
{
    let (q, ok) = parse_next(data, restarts, num, p);
    if ok && C::order_spec(q.key, target) == KeyOrder::Less && p.next_entry_offset <= data.len() {
        proof {
            lemma_step_advances(data, restarts, p.next_entry_offset, p.key);
        }
        scan_to_target::<C>(data, restarts, num, q, target)
    } else {
        q
    }
}

/// The key of the entry at restart point `i`, read as one that shares nothing.
pub open spec fn restart_key(data: Seq<u8>, restarts: nat, i: nat) -> Option<Seq<u8>> {
    let off = restart_point(data, restarts, i);
    match spec_decode_entry(data.skip(off as int)) {
        Some((h, shared, non_shared, _)) => if shared == 0 {
            Some(data.subrange((off + h) as int, off + h + non_shared))
        } else {
            None
        },
        None => None,
    }
}

/// The binary search over restart points that `seek` makes: the last restart point in
/// `left..=right` whose key sorts before `target`, or `left`; `None` when a restart entry
/// is corrupt.
pub open spec fn search_restarts<C: Comparator>(
    data: Seq<u8>,
    restarts: nat,
    left: nat,
    right: nat,
    target: Seq<u8>,
) -> Option<nat>
    decreases right - left,
{
    if left >= right {
        Some(left)
    } else {
        let mid = ((left + right + 1) / 2) as nat;
        match restart_key(data, restarts, mid) {
            None => None,
            Some(k) => if C::order_spec(k, target) == KeyOrder::Less {
                search_restarts::<C>(data, restarts, mid, right, target)
            } else {
                search_restarts::<C>(data, restarts, left, (mid - 1) as nat, target)
            },
        }
    }
}

/// The position a corrupt entry leaves.
pub open spec fn corrupt_pos(restarts: nat, num: nat, p: IterPos) -> IterPos {
    IterPos {
        current: restarts,
        restart_index: num,
        key: Seq::empty(),
        value_start: 0,
        value_end: 0,
        corrupt: true,
        ..p
    }
}

/// Where `seek(target)` leaves the iterator.
pub open spec fn seek_spec<C: Comparator>(
    data: Seq<u8>,
    restarts: nat,
    num: nat,
    p: IterPos,
    target: Seq<u8>,
) -> IterPos {
    let valid = p.current < restarts;
    let o = C::order_spec(p.key, target);
    if valid && o == KeyOrder::Equal {
        p
    } else {
        let left0: nat = if valid && o == KeyOrder::Less { p.restart_index } else { 0 };
        let right0: nat = if valid && o == KeyOrder::Greater {
            p.restart_index
        } else {
            (num - 1) as nat
        };
        match search_restarts::<C>(data, restarts, left0, right0, target) {
            None => corrupt_pos(restarts, num, p),
            Some(left) => {
                let skip = valid && o == KeyOrder::Less && left == p.restart_index;
                let p1 = if skip { p } else { at_restart(data, restarts, left, p) };
                scan_to_target::<C>(data, restarts, num, p1, target)
            },
        }
    }
}

/// The restart point that `prev` starts reading from: the last one at or before `ri`
/// that lies before `origin`.
pub open spec fn prev_restart(data: Seq<u8>, restarts: nat, ri: nat, origin: nat) -> Option<nat>
    decreases ri,
{
    if restart_point(data, restarts, ri) >= origin {
        if ri == 0 {
            None
        } else {
            prev_restart(data, restarts, (ri - 1) as nat, origin)
        }
    } else {
        Some(ri)
    }
}

/// A restart point found by `prev_restart` lies before `origin`.
pub proof fn lemma_prev_restart_before(data: Seq<u8>, restarts: nat, ri: nat, origin: nat)
    ensures
        prev_restart(data, restarts, ri, origin) matches Some(i) ==> restart_point(data, restarts, i)
            < origin,
    decreases ri,
{
    if restart_point(data, restarts, ri) >= origin && ri > 0 {
        lemma_prev_restart_before(data, restarts, (ri - 1) as nat, origin);
    }
}

/// Scanning from an entry offset before `bound` ends at an entry before `bound`, or past
/// the entries.
pub proof fn lemma_scan_before_moves_back(
    data: Seq<u8>,
    restarts: nat,
    num: nat,
    p: IterPos,
    bound: nat,
)
    requires
        p.next_entry_offset < bound,
    ensures
        scan_before(data, restarts, num, p, bound).current < bound || scan_before(
            data,
            restarts,
            num,
            p,
            bound,
        ).current == restarts,
    decreases data.len() - p.next_entry_offset,
{
    let (q, ok) = parse_next(data, restarts, num, p);
    if ok && q.next_entry_offset < bound && p.next_entry_offset <= data.len() {
        lemma_step_advances(data, restarts, p.next_entry_offset, p.key);
        lemma_scan_before_moves_back(data, restarts, num, q, bound);
    }
}

/// Where `prev` leaves the iterator.
pub open spec fn prev_spec(data: Seq<u8>, restarts: nat, num: nat, p: IterPos) -> IterPos {
    match prev_restart(data, restarts, p.restart_index, p.current) {
        None => IterPos { current: restarts, restart_index: num, ..p },
        Some(i) => scan_before(data, restarts, num, at_restart(data, restarts, i, p), p.current),
    }
}

/// Every key read along the entries from `off` is one the comparator accepts.
pub open spec fn chain_accepted<C: Comparator>(data: Seq<u8>, limit: nat, off: nat, prev: Seq<u8>) -> bool
    decreases data.len() - off,
{
    if off > data.len() {
        true
    } else {
        match step(data, limit, off, prev) {
            Step::Entry { key, value_start, value_len, next } => {
                proof {
                    lemma_step_advances(data, limit, off, prev);
                }
                C::accepts(key) && chain_accepted::<C>(data, limit, next, key)
            },
            _ => true,
        }
    }
}

/// A block an iterator can walk without failing: its restart points lie within it, and
/// the comparator accepts every key read from the start or from a restart point on.
#[verifier::opaque]
pub open spec fn iterable<C: Comparator>(data: Seq<u8>) -> bool {
    let restarts = restart_array_start(data);
    let num = stored_restarts(data) as nat;
    &&& chain_accepted::<C>(data, restarts, 0, Seq::empty())
    &&& forall|i: nat| i < num ==> #[trigger] restart_point(data, restarts, i) <= data.len()
    &&& forall|i: nat|
        i < num ==> chain_accepted::<C>(data, restarts, #[trigger] restart_point(data, restarts, i), Seq::empty())
    &&& forall|i: nat|
        i < num ==> (#[trigger] restart_key(data, restarts, i) matches Some(k) ==> C::accepts(k))
}

/// Every restart point of a well laid out block lies within it.
pub open spec fn restarts_in_bounds(data: Seq<u8>) -> bool {
    forall|i: nat|
        i < stored_restarts(data) ==> #[trigger] restart_point(data, restart_array_start(data), i)
            <= data.len()
}

/// The comparator accepts every key.
pub open spec fn accepts_all<C: Comparator>() -> bool {
    forall|k: Seq<u8>| #[trigger] C::accepts(k)
}

/// Under a comparator that accepts every key, every chain of entries is accepted.
pub proof fn lemma_chain_accepted_total<C: Comparator>(
    data: Seq<u8>,
    limit: nat,
    off: nat,
    prev: Seq<u8>,
)
    requires
        accepts_all::<C>(),
    ensures
        chain_accepted::<C>(data, limit, off, prev),
    decreases data.len() - off,
{
    if off <= data.len() {
        match step(data, limit, off, prev) {
            Step::Entry { key, value_start, value_len, next } => {
                lemma_step_advances(data, limit, off, prev);
                lemma_chain_accepted_total::<C>(data, limit, next, key);
            },
            _ => {},
        }
    }
}

/// Under a comparator that accepts every key, a well laid out block whose restart points
/// lie within it can be walked.
pub proof fn lemma_iterable_total<C: Comparator>(data: Seq<u8>)
    requires
        accepts_all::<C>(),
        block_layout_ok(data),
        restarts_in_bounds(data),
    ensures
        iterable::<C>(data),
{
    reveal(iterable);
    let restarts = restart_array_start(data);
    lemma_chain_accepted_total::<C>(data, restarts, 0, Seq::empty());
    assert forall|i: nat| i < stored_restarts(data) implies chain_accepted::<C>(
        data,
        restarts,
        #[trigger] restart_point(data, restarts, i),
        Seq::empty(),
    ) by {
        lemma_chain_accepted_total::<C>(data, restarts, restart_point(data, restarts, i), Seq::empty());
    }
}

/// An iterator over the entries of a block.
pub struct BlockIter<C: Comparator> {
    comparator: C,
    data: Vec<u8>,
    restarts: u32,
    num_restarts: u32,
    current: u32,
    restart_index: u32,
    next_entry_offset: u32,
    key: Vec<u8>,
    value_start: usize,
    value_end: usize,
    status: Result<(), DbError>,
}

impl<C: Comparator> BlockIter<C> {
    /// The bytes of the block.
    pub closed spec fn spec_data(&self) -> Seq<u8> {
        self.data@
    }

    /// Where the restart array starts.
    pub closed spec fn spec_restarts(&self) -> nat {
        self.restarts as nat
    }

    /// The number of restart points.
    pub closed spec fn spec_num_restarts(&self) -> nat {
        self.num_restarts as nat
    }

    /// Where the iterator stands.
    pub closed spec fn pos(&self) -> IterPos {
        IterPos {
            current: self.current as nat,
            restart_index: self.restart_index as nat,
            next_entry_offset: self.next_entry_offset as nat,
            key: self.key@,
            value_start: self.value_start as nat,
            value_end: self.value_end as nat,
            corrupt: self.status is Err,
        }
    }

    /// The iterator's fields agree with the block and with each other.
    pub closed spec fn wf(&self) -> bool {
        let data = self.data@;
        let restarts = self.restarts as nat;
        let num = self.num_restarts as nat;
        &&& data.len() <= u32::MAX
        &&& num >= 1
        &&& restarts + 4 * num + 4 == data.len()
        &&& restarts == restart_array_start(data)
        &&& num == stored_restarts(data)
        &&& iterable::<C>(data)
        &&& self.current <= self.restarts
        &&& self.restart_index <= self.num_restarts
        &&& self.next_entry_offset <= data.len()
        &&& self.value_start <= self.value_end <= data.len()
        &&& self.current < self.restarts ==> self.restart_index < self.num_restarts
        &&& chain_accepted::<C>(data, restarts, self.next_entry_offset as nat, self.key@)
    }

    /// Compares two keys with the block's comparator.
    pub fn compare(&self, a: &[u8], b: &[u8]) -> (r: KeyOrder)
        requires
            C::accepts(a@),
            C::accepts(b@),
        ensures
            r == C::order_spec(a@, b@),
    {
        self.comparator.compare(a, b)
    }

    /// Where the entry after the current one starts.
    pub fn next_entry_offset(&self) -> (r: u32)
        ensures
            r == self.pos().next_entry_offset,
    {
        self.next_entry_offset
    }

    /// The offset stored at index `index` of the restart array.
    pub fn get_restart_point(&self, index: u32) -> (r: u32)
        requires
            self.wf(),
            index < self.spec_num_restarts(),
        ensures
            r == restart_point(self.spec_data(), self.spec_restarts(), index as nat),
    {
        let start = self.restarts as usize + index as usize * 4;
        let r = decode_fixed32(&self.data[start..self.data.len()]);
        proof {
            assert(self.data@.subrange(start as int, self.data@.len() as int) =~= self.data@.skip(
                start as int,
            ));
        }
        r
    }

    /// Positions the next read at restart point `index`.
    pub fn seek_to_restart_point(&mut self, index: u32)
        requires
            old(self).wf(),
            index < old(self).spec_num_restarts(),
        ensures
            final(self).wf(),
            final(self).spec_data() == old(self).spec_data(),
            final(self).spec_restarts() == old(self).spec_restarts(),
            final(self).spec_num_restarts() == old(self).spec_num_restarts(),
            final(self).pos() == at_restart(
                old(self).spec_data(),
                old(self).spec_restarts(),
                index as nat,
                old(self).pos(),
            ),
    {
        let offset = self.get_restart_point(index);
        self.key.clear();
        self.restart_index = index;
        self.value_start = offset as usize;
        self.value_end = self.data.len();
        self.next_entry_offset = offset;
        proof {
            assert(self.key@ =~= Seq::<u8>::empty());
            reveal(iterable);
            let data = self.data@;
            let restarts = self.restarts as nat;
            assert(restart_point(data, restarts, index as nat) <= data.len());
            assert(chain_accepted::<C>(data, restarts, restart_point(data, restarts, index as nat), Seq::empty()));
        }
    }

    /// Marks the iterator corrupt and past the end.
    fn corruption_error(&mut self)
        requires
            old(self).wf(),
        ensures
            final(self).wf(),
            final(self).spec_data() == old(self).spec_data(),
            final(self).spec_restarts() == old(self).spec_restarts(),
            final(self).spec_num_restarts() == old(self).spec_num_restarts(),
            final(self).pos() == corrupt_pos(
                old(self).spec_restarts(),
                old(self).spec_num_restarts(),
                old(self).pos(),
            ),
    {
        self.current = self.restarts;
        self.restart_index = self.num_restarts;
        self.key.clear();
        self.value_start = 0;
        self.value_end = 0;
        self.status = Err(DbError::Corruption(String::from_str("bad entry in block")));
        proof {
            assert(self.key@ =~= Seq::<u8>::empty());
        }
    }

    /// Reads the entry at the next entry offset: its key and value become current and the
    /// restart index catches up with it. Returns whether an entry was read; past the end
    /// the iterator becomes invalid, and on a corrupt entry it also becomes corrupt.
    fn parse_next_key(&mut self) -> (r: bool)
        requires
            old(self).wf(),
            old(self).pos().restart_index < old(self).spec_num_restarts(),
        ensures
            final(self).wf(),
            final(self).spec_data() == old(self).spec_data(),
            final(self).spec_restarts() == old(self).spec_restarts(),
            final(self).spec_num_restarts() == old(self).spec_num_restarts(),
            (final(self).pos(), r) == parse_next(
                old(self).spec_data(),
                old(self).spec_restarts(),
                old(self).spec_num_restarts(),
                old(self).pos(),
            ),
    {
        let ghost data = self.data@;
        let ghost restarts = self.restarts as nat;
        let ghost num = self.num_restarts as nat;
        let ghost p0 = self.pos();
        self.current = self.next_entry_offset;
        if self.current >= self.restarts {
            self.current = self.restarts;
            self.restart_index = self.num_restarts;
            return false;
        }
        let cur = self.current as usize;
        let rest = &self.data[cur..self.data.len()];
        proof {
            assert(rest@ =~= data.skip(cur as int));
        }
        let entry = decode_entry(rest);
        match entry {
            None => {
                self.corruption_error();
                false
            },
            Some((h, shared, non_shared, value_length)) => {
                if self.key.len() < shared as usize {
                    self.corruption_error();
                    return false;
                }
                proof {
                    lemma_decode_entry_header(data.skip(cur as int));
                }
                let ks = cur + h;
                let ve = ks + non_shared as usize;
                self.key.resize(shared as usize, 0);
                let delta = &self.data[ks..ve];
                let ghost old_key = self.key@;
                self.key.extend_from_slice(delta);
                proof {
                    assert(self.key@ =~= p0.key.take(shared as int) + data.subrange(ks as int, ve as int));
                }
                self.value_start = ve;
                self.value_end = ve + value_length as usize;
                self.next_entry_offset = (ve + value_length as usize) as u32;
                let ghost target = advance_restart(data, restarts, num, p0.restart_index, cur as nat);
                while self.restart_index + 1 < self.num_restarts && self.get_restart_point(
                    self.restart_index + 1,
                ) < self.current
                    invariant
                        self.wf(),
                        self.data@ == data,
                        self.restarts == restarts,
                        self.num_restarts == num,
                        self.restart_index < num,
                        self.current == cur,
                        advance_restart(data, restarts, num, self.restart_index as nat, cur as nat)
                            == target,
                        self.key@ == p0.key.take(shared as int) + data.subrange(ks as int, ve as int),
                        self.value_start == ve,
                        self.value_end == ve + value_length,
                        self.next_entry_offset == ve + value_length,
                        self.status is Err == p0.corrupt,
                    decreases num - self.restart_index,
                {
                    self.restart_index = self.restart_index + 1;
                }
                true
            },
        }
    }

    /// Reads entries while each read succeeds and the following entry starts before
    /// `bound`.
    fn scan_while_before(&mut self, bound: u32)
        requires
            old(self).wf(),
            old(self).pos().restart_index < old(self).spec_num_restarts(),
        ensures
            final(self).wf(),
            final(self).spec_data() == old(self).spec_data(),
            final(self).spec_restarts() == old(self).spec_restarts(),
            final(self).spec_num_restarts() == old(self).spec_num_restarts(),
            final(self).pos() == scan_before(
                old(self).spec_data(),
                old(self).spec_restarts(),
                old(self).spec_num_restarts(),
                old(self).pos(),
                bound as nat,
            ),
    {
        let ghost data = self.data@;
        let ghost restarts = self.restarts as nat;
        let ghost num = self.num_restarts as nat;
        let ghost target = scan_before(data, restarts, num, self.pos(), bound as nat);
        loop
            invariant_except_break
                self.restart_index < num,
                scan_before(data, restarts, num, self.pos(), bound as nat) == target,
            invariant
                self.wf(),
                self.data@ == data,
                self.restarts == restarts,
                self.num_restarts == num,
            ensures
                self.pos() == target,
            decreases data.len() - self.next_entry_offset,
        {
            let ghost p = self.pos();
            proof {
                lemma_step_advances(data, restarts, p.next_entry_offset, p.key);
            }
            let ok = self.parse_next_key();
            if !ok {
                break;
            }
            if self.next_entry_offset >= bound {
                break;
            }
        }
    }

    /// Reads entries until a read fails or reaches a key at or after `target`.
    fn scan_until_at_or_after(&mut self, target: &[u8])
        requires
            old(self).wf(),
            old(self).pos().restart_index < old(self).spec_num_restarts(),
            C::accepts(target@),
        ensures
            final(self).wf(),
            final(self).spec_data() == old(self).spec_data(),
            final(self).spec_restarts() == old(self).spec_restarts(),
            final(self).spec_num_restarts() == old(self).spec_num_restarts(),
            final(self).pos() == scan_to_target::<C>(
                old(self).spec_data(),
                old(self).spec_restarts(),
                old(self).spec_num_restarts(),
                old(self).pos(),
                target@,
            ),
    {
        let ghost data = self.data@;
        let ghost restarts = self.restarts as nat;
        let ghost num = self.num_restarts as nat;
        let ghost goal = scan_to_target::<C>(data, restarts, num, self.pos(), target@);
        loop
            invariant_except_break
                self.restart_index < num,
                scan_to_target::<C>(data, restarts, num, self.pos(), target@) == goal,
            invariant
                self.wf(),
                self.data@ == data,
                self.restarts == restarts,
                self.num_restarts == num,
                C::accepts(target@),
            ensures
                self.pos() == goal,
            decreases data.len() - self.next_entry_offset,
        {
            let ghost p = self.pos();
            proof {
                lemma_step_advances(data, restarts, p.next_entry_offset, p.key);
            }
            let ok = self.parse_next_key();
            if !ok {
                break;
            }
            if self.comparator.compare(self.key.as_slice(), target) != KeyOrder::Less {
                break;
            }
        }
    }

    /// The key of the entry at restart point `index`, which must share nothing with the
    /// entry before it.
    fn read_restart_key(&self, index: u32) -> (r: Option<&[u8]>)
        requires
            self.wf(),
            index < self.spec_num_restarts(),
        ensures
            match r {
                Some(k) => restart_key(self.spec_data(), self.spec_restarts(), index as nat)
                    == Some(k@) && C::accepts(k@),
                None => restart_key(self.spec_data(), self.spec_restarts(), index as nat) is None,
            },
    {
        let ghost data = self.data@;
        let ghost restarts = self.restarts as nat;
        let region_offset = self.get_restart_point(index);
        proof {
            assert(restart_point(data, restarts, index as nat) <= data.len()) by {
                reveal(iterable);
            }
        }
        let ro = region_offset as usize;
        let region = &self.data[ro..self.data.len()];
        proof {
            assert(region@ =~= data.skip(ro as int));
            lemma_decode_entry_header(region@);
        }
        match decode_entry(region) {
            None => None,
            Some((h, shared, non_shared, _)) => {
                if shared != 0 {
                    return None;
                }
                let key = &self.data[ro + h..ro + h + non_shared as usize];
                proof {
                    assert(restart_key(data, restarts, index as nat) == Some(key@));
                    assert(C::accepts(key@)) by {
                        reveal(iterable);
                    }
                }
                Some(key)
            },
        }
    }

    /// The binary search of `seek` over restart points `left..=right`: the last one whose
    /// key sorts before `target`, or `left`; `None` if a restart entry is corrupt.
    fn find_restart(&self, lo: u32, hi: u32, target: &[u8]) -> (r: Option<u32>)
        requires
            self.wf(),
            C::accepts(target@),
            lo <= hi < self.spec_num_restarts(),
        ensures
            match r {
                Some(l) => search_restarts::<C>(
                    self.spec_data(),
                    self.spec_restarts(),
                    lo as nat,
                    hi as nat,
                    target@,
                ) == Some(l as nat) && l < self.spec_num_restarts(),
                None => search_restarts::<C>(
                    self.spec_data(),
                    self.spec_restarts(),
                    lo as nat,
                    hi as nat,
                    target@,
                ) is None,
            },
    {
        let ghost data = self.data@;
        let ghost restarts = self.restarts as nat;
        let ghost goal = search_restarts::<C>(data, restarts, lo as nat, hi as nat, target@);
        let mut left = lo;
        let mut right = hi;
        while left < right
            invariant
                self.wf(),
                data == self.data@,
                restarts == self.restarts,
                C::accepts(target@),
                left <= right < self.num_restarts,
                search_restarts::<C>(data, restarts, left as nat, right as nat, target@) == goal,
                goal == search_restarts::<C>(data, restarts, lo as nat, hi as nat, target@),
            decreases right - left,
        {
            let mid = (left + right + 1) / 2;
            let ghost smid = ((left + right + 1) / 2) as nat;
            assert(smid == mid as nat);
            match self.read_restart_key(mid) {
                None => {
                    assert(search_restarts::<C>(data, restarts, left as nat, right as nat, target@) is None);
                    return None;
                },
                Some(mid_key) => {
                    if self.comparator.compare(mid_key, target) == KeyOrder::Less {
                        left = mid;
                    } else {
                        right = mid - 1;
                    }
                },
            }
        }
        Some(left)
    }

    /// The search behind `seek`.
    fn seek_impl(&mut self, target: &[u8])
        requires
            old(self).wf(),
            C::accepts(target@),
            old(self).pos().current < old(self).spec_restarts() ==> C::accepts(old(self).pos().key),
        ensures
            final(self).wf(),
            final(self).spec_data() == old(self).spec_data(),
            final(self).spec_restarts() == old(self).spec_restarts(),
            final(self).spec_num_restarts() == old(self).spec_num_restarts(),
            final(self).pos() == seek_spec::<C>(
                old(self).spec_data(),
                old(self).spec_restarts(),
                old(self).spec_num_restarts(),
                old(self).pos(),
                target@,
            ),
    {
        let ghost data = self.data@;
        let ghost restarts = self.restarts as nat;
        let ghost num = self.num_restarts as nat;
        let ghost p0 = self.pos();
        let mut left: u32 = 0;
        let mut right: u32 = self.num_restarts - 1;
        let mut current_key_order = KeyOrder::Equal;
        if self.current < self.restarts {
            current_key_order = self.comparator.compare(self.key.as_slice(), target);
            match current_key_order {
                KeyOrder::Less => {
                    left = self.restart_index;
                },
                KeyOrder::Greater => {
                    right = self.restart_index;
                },
                KeyOrder::Equal => {
                    return;
                },
            }
        }
        let found = self.find_restart(left, right, target);
        let left = match found {
            None => {
                self.corruption_error();
                return;
            },
            Some(l) => l,
        };
        let skip_seek = left == self.restart_index && current_key_order == KeyOrder::Less;
        if !skip_seek {
            self.seek_to_restart_point(left);
        }
        self.scan_until_at_or_after(target);
    }
}

impl<C: Comparator> DBIterator for BlockIter<C> {
    open spec fn inv(&self) -> bool {
        self.wf()
    }

    open spec fn is_valid(&self) -> bool {
        self.pos().current < self.spec_restarts()
    }

    open spec fn seekable(&self, target: Seq<u8>) -> bool {
        &&& C::accepts(target)
        &&& self.pos().current < self.spec_restarts() ==> C::accepts(self.pos().key)
    }

    open spec fn current_key(&self) -> Seq<u8> {
        self.pos().key
    }

    open spec fn steppable(&self) -> bool {
        self.is_valid()
    }

    proof fn lemma_valid_steppable(&self) {
    }

    open spec fn first_from(before: Self, after: Self) -> bool {
        &&& same_block(before, after)
        &&& after.pos() == parse_next(
            before.spec_data(),
            before.spec_restarts(),
            before.spec_num_restarts(),
            at_restart(before.spec_data(), before.spec_restarts(), 0, before.pos()),
        ).0
    }

    open spec fn last_from(before: Self, after: Self) -> bool {
        &&& same_block(before, after)
        &&& after.pos() == scan_before(
            before.spec_data(),
            before.spec_restarts(),
            before.spec_num_restarts(),
            at_restart(
                before.spec_data(),
                before.spec_restarts(),
                (before.spec_num_restarts() - 1) as nat,
                before.pos(),
            ),
            before.spec_restarts(),
        )
    }

    open spec fn seek_from(before: Self, after: Self, target: Seq<u8>) -> bool {
        &&& same_block(before, after)
        &&& after.pos() == seek_spec::<C>(
            before.spec_data(),
            before.spec_restarts(),
            before.spec_num_restarts(),
            before.pos(),
            target,
        )
    }

    open spec fn next_from(before: Self, after: Self) -> bool {
        &&& same_block(before, after)
        &&& after.pos() == parse_next(
            before.spec_data(),
            before.spec_restarts(),
            before.spec_num_restarts(),
            before.pos(),
        ).0
    }

    open spec fn prev_from(before: Self, after: Self) -> bool {
        &&& same_block(before, after)
        &&& after.pos() == prev_spec(
            before.spec_data(),
            before.spec_restarts(),
            before.spec_num_restarts(),
            before.pos(),
        )
    }

    /// Always `Ok`: a corrupt entry shows as an invalid iterator.
    open spec fn current_status(&self) -> Result<(), DbError> {
        Ok(())
    }

    open spec fn current_value(&self) -> Seq<u8> {
        self.spec_data().subrange(self.pos().value_start as int, self.pos().value_end as int)
    }

    open spec fn steps_forward(&self) -> nat {
        if self.pos().current < self.spec_restarts() {
            (self.spec_data().len() + 1 - self.pos().next_entry_offset) as nat
        } else {
            0
        }
    }

    open spec fn steps_backward(&self) -> nat {
        if self.pos().current < self.spec_restarts() {
            self.pos().current + 1
        } else {
            0
        }
    }

    open spec fn steps_bound() -> nat {
        0x1_0000_0000nat
    }

    proof fn lemma_steps_bounded(&self) {
    }

    fn valid(&self) -> (r: bool) {
        self.current < self.restarts
    }

    /// Moves to the first entry of the block.
    fn seek_to_first(&mut self)
        ensures
            final(self).spec_data() == old(self).spec_data(),
            final(self).spec_restarts() == old(self).spec_restarts(),
            final(self).spec_num_restarts() == old(self).spec_num_restarts(),
            final(self).pos() == parse_next(
                old(self).spec_data(),
                old(self).spec_restarts(),
                old(self).spec_num_restarts(),
                at_restart(old(self).spec_data(), old(self).spec_restarts(), 0, old(self).pos()),
            ).0,
    {
        self.seek_to_restart_point(0);
        self.parse_next_key();
    }

    /// Moves to the last entry of the block: the last one read from the last restart
    /// point on.
    fn seek_to_last(&mut self)
        ensures
            final(self).spec_data() == old(self).spec_data(),
            final(self).spec_restarts() == old(self).spec_restarts(),
            final(self).spec_num_restarts() == old(self).spec_num_restarts(),
            final(self).pos() == scan_before(
                old(self).spec_data(),
                old(self).spec_restarts(),
                old(self).spec_num_restarts(),
                at_restart(
                    old(self).spec_data(),
                    old(self).spec_restarts(),
                    (old(self).spec_num_restarts() - 1) as nat,
                    old(self).pos(),
                ),
                old(self).spec_restarts(),
            ),
    {
        self.seek_to_restart_point(self.num_restarts - 1);
        self.scan_while_before(self.restarts);
    }

    /// Moves to the first entry whose key is at or after `target`, searching the restart
    /// points first.
    fn seek(&mut self, target: &[u8])
        ensures
            final(self).spec_data() == old(self).spec_data(),
            final(self).spec_restarts() == old(self).spec_restarts(),
            final(self).spec_num_restarts() == old(self).spec_num_restarts(),
            final(self).pos() == seek_spec::<C>(
                old(self).spec_data(),
                old(self).spec_restarts(),
                old(self).spec_num_restarts(),
                old(self).pos(),
                target@,
            ),
    {
        self.seek_impl(target);
    }

    /// Moves to the next entry.
    fn next(&mut self)
        ensures
            final(self).spec_data() == old(self).spec_data(),
            final(self).spec_restarts() == old(self).spec_restarts(),
            final(self).spec_num_restarts() == old(self).spec_num_restarts(),
            final(self).pos() == parse_next(
                old(self).spec_data(),
                old(self).spec_restarts(),
                old(self).spec_num_restarts(),
                old(self).pos(),
            ).0,
    {
        self.parse_next_key();
    }

    /// Moves to the entry before the current one, reading forward from the last restart
    /// point before it.
    fn prev(&mut self)
        ensures
            final(self).spec_data() == old(self).spec_data(),
            final(self).spec_restarts() == old(self).spec_restarts(),
            final(self).spec_num_restarts() == old(self).spec_num_restarts(),
            final(self).pos() == prev_spec(
                old(self).spec_data(),
                old(self).spec_restarts(),
                old(self).spec_num_restarts(),
                old(self).pos(),
            ),
    {
        let ghost data = self.data@;
        let ghost restarts = self.restarts as nat;
        let ghost p0 = self.pos();
        let origin = self.current;
        let ghost goal = prev_restart(data, restarts, p0.restart_index, origin as nat);
        while self.get_restart_point(self.restart_index) >= origin
            invariant
                self.wf(),
                self.data@ == data,
                self.restarts == restarts,
                self.num_restarts == old(self).num_restarts,
                data == old(self).spec_data(),
                restarts == old(self).spec_restarts(),
                p0 == old(self).pos(),
                origin as nat == p0.current,
                p0.current < restarts,
                goal == prev_restart(data, restarts, p0.restart_index, p0.current),
                self.restart_index < self.num_restarts,
                self.pos() == (IterPos { restart_index: self.restart_index as nat, ..p0 }),
                prev_restart(data, restarts, self.restart_index as nat, origin as nat) == goal,
            decreases self.restart_index,
        {
            if self.restart_index == 0 {
                self.current = self.restarts;
                self.restart_index = self.num_restarts;
                return;
            }
            self.restart_index = self.restart_index - 1;
        }
        self.seek_to_restart_point(self.restart_index);
        self.scan_while_before(origin);
        proof {
            lemma_prev_restart_before(data, restarts, p0.restart_index, origin as nat);
            let i = goal->0;
            lemma_scan_before_moves_back(
                data,
                restarts,
                self.num_restarts as nat,
                at_restart(data, restarts, i, p0),
                origin as nat,
            );
        }
    }

    fn key(&self) -> (r: &[u8]) {
        self.key.as_slice()
    }

    fn value(&self) -> (r: &[u8]) {
        &self.data[self.value_start..self.value_end]
    }

    fn status(&self) -> (r: Result<(), DbError>) {
        Ok(())
    }
}

/// `a` walks the same block as `b`: the same bytes and restart array.
pub open spec fn same_block<C: Comparator>(b: BlockIter<C>, a: BlockIter<C>) -> bool {
    &&& a.spec_data() == b.spec_data()
    &&& a.spec_restarts() == b.spec_restarts()
    &&& a.spec_num_restarts() == b.spec_num_restarts()
}

/// The iterator a block gives: an empty one, possibly reporting corruption, or one over
/// its entries.
pub enum BlockIterator<C: Comparator> {
    Empty(EmptyDBIterator),
    Entries(BlockIter<C>),
}

impl<C: Comparator> DBIterator for BlockIterator<C> {
    open spec fn inv(&self) -> bool {
        match self {
            BlockIterator::Empty(e) => e.inv(),
            BlockIterator::Entries(it) => it.inv(),
        }
    }

    open spec fn is_valid(&self) -> bool {
        match self {
            BlockIterator::Empty(e) => e.is_valid(),
            BlockIterator::Entries(it) => it.is_valid(),
        }
    }

    open spec fn seekable(&self, target: Seq<u8>) -> bool {
        match self {
            BlockIterator::Empty(e) => e.seekable(target),
            BlockIterator::Entries(it) => it.seekable(target),
        }
    }

    open spec fn steppable(&self) -> bool {
        match self {
            BlockIterator::Empty(e) => e.steppable(),
            BlockIterator::Entries(it) => it.steppable(),
        }
    }

    proof fn lemma_valid_steppable(&self) {
    }

    open spec fn current_status(&self) -> Result<(), DbError> {
        match self {
            BlockIterator::Empty(e) => e.current_status(),
            BlockIterator::Entries(it) => it.current_status(),
        }
    }

    open spec fn first_from(before: Self, after: Self) -> bool {
        match (before, after) {
            (BlockIterator::Empty(b), BlockIterator::Empty(a)) => EmptyDBIterator::first_from(b, a),
            (BlockIterator::Entries(b), BlockIterator::Entries(a)) => BlockIter::<C>::first_from(b, a),
            _ => false,
        }
    }

    open spec fn last_from(before: Self, after: Self) -> bool {
        match (before, after) {
            (BlockIterator::Empty(b), BlockIterator::Empty(a)) => EmptyDBIterator::last_from(b, a),
            (BlockIterator::Entries(b), BlockIterator::Entries(a)) => BlockIter::<C>::last_from(b, a),
            _ => false,
        }
    }

    open spec fn seek_from(before: Self, after: Self, target: Seq<u8>) -> bool {
        match (before, after) {
            (BlockIterator::Empty(b), BlockIterator::Empty(a)) => EmptyDBIterator::seek_from(b, a, target),
            (BlockIterator::Entries(b), BlockIterator::Entries(a)) => BlockIter::<C>::seek_from(
                b,
                a,
                target,
            ),
            _ => false,
        }
    }

    open spec fn next_from(before: Self, after: Self) -> bool {
        match (before, after) {
            (BlockIterator::Empty(b), BlockIterator::Empty(a)) => EmptyDBIterator::next_from(b, a),
            (BlockIterator::Entries(b), BlockIterator::Entries(a)) => BlockIter::<C>::next_from(b, a),
            _ => false,
        }
    }

    open spec fn prev_from(before: Self, after: Self) -> bool {
        match (before, after) {
            (BlockIterator::Empty(b), BlockIterator::Empty(a)) => EmptyDBIterator::prev_from(b, a),
            (BlockIterator::Entries(b), BlockIterator::Entries(a)) => BlockIter::<C>::prev_from(b, a),
            _ => false,
        }
    }

    open spec fn current_key(&self) -> Seq<u8> {
        match self {
            BlockIterator::Empty(e) => e.current_key(),
            BlockIterator::Entries(it) => it.current_key(),
        }
    }

    open spec fn current_value(&self) -> Seq<u8> {
        match self {
            BlockIterator::Empty(e) => e.current_value(),
            BlockIterator::Entries(it) => it.current_value(),
        }
    }

    open spec fn steps_forward(&self) -> nat {
        match self {
            BlockIterator::Empty(e) => e.steps_forward(),
            BlockIterator::Entries(it) => it.steps_forward(),
        }
    }

    open spec fn steps_backward(&self) -> nat {
        match self {
            BlockIterator::Empty(e) => e.steps_backward(),
            BlockIterator::Entries(it) => it.steps_backward(),
        }
    }

    open spec fn steps_bound() -> nat {
        0x1_0000_0000nat
    }

    proof fn lemma_steps_bounded(&self) {
        match self {
            BlockIterator::Empty(e) => e.lemma_steps_bounded(),
            BlockIterator::Entries(it) => it.lemma_steps_bounded(),
        }
    }

    fn valid(&self) -> (r: bool) {
        match self {
            BlockIterator::Empty(e) => e.valid(),
            BlockIterator::Entries(it) => it.valid(),
        }
    }

    fn seek_to_first(&mut self) {
        match self {
            BlockIterator::Empty(e) => e.seek_to_first(),
            BlockIterator::Entries(it) => it.seek_to_first(),
        }
    }

    fn seek_to_last(&mut self) {
        match self {
            BlockIterator::Empty(e) => e.seek_to_last(),
            BlockIterator::Entries(it) => it.seek_to_last(),
        }
    }

    fn seek(&mut self, target: &[u8])
        ensures
            match *old(self) {
                BlockIterator::Empty(e) => *final(self) == BlockIterator::<C>::Empty(e),
                BlockIterator::Entries(it) => *final(self) matches BlockIterator::Entries(it2)
                    && it2.spec_data() == it.spec_data() && it2.spec_restarts() == it.spec_restarts()
                    && it2.spec_num_restarts() == it.spec_num_restarts() && it2.pos() == seek_spec::<
                    C,
                >(it.spec_data(), it.spec_restarts(), it.spec_num_restarts(), it.pos(), target@),
            },
    {
        match self {
            BlockIterator::Empty(e) => e.seek(target),
            BlockIterator::Entries(it) => it.seek(target),
        }
    }

    fn next(&mut self) {
        match self {
            BlockIterator::Empty(e) => e.next(),
            BlockIterator::Entries(it) => it.next(),
        }
    }

    fn prev(&mut self) {
        match self {
            BlockIterator::Empty(e) => e.prev(),
            BlockIterator::Entries(it) => it.prev(),
        }
    }

    fn key(&self) -> (r: &[u8]) {
        match self {
            BlockIterator::Empty(e) => e.key(),
            BlockIterator::Entries(it) => it.key(),
        }
    }

    fn value(&self) -> (r: &[u8]) {
        match self {
            BlockIterator::Empty(e) => e.value(),
            BlockIterator::Entries(it) => it.value(),
        }
    }

    fn status(&self) -> (r: Result<(), DbError>) {
        match self {
            BlockIterator::Empty(e) => e.status(),
            BlockIterator::Entries(it) => it.status(),
        }
    }
}

} // verus!
