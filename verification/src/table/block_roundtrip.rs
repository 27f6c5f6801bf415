//! What a block builder writes, a block reader reads back.
use crate::table::block::{
    at_restart, fresh_pos, lemma_chain_accepted_total, scan_to_target, search_restarts, seek_spec,
    block_entries, block_layout_ok, chain_accepted, iterable, parse_entries, parse_next,
    restart_array_start, restart_key, restart_point, spec_decode_entry, step, stored_restarts,
    IterPos, Step, lemma_step_advances,
};
use crate::table::block_builder::{
    add_step, block_bytes, build_state, entry_bytes, restart_array_bytes, BuildState,
};
use crate::util::coding::{
    fixed32_bytes, fixed32_value, lemma_fixed32_roundtrip, lemma_varint32_roundtrip,
    lemma_varint_bytes_bound, spec_get_varint32, varint_bytes,
};
use crate::util::comparator::{common_prefix_len, lemma_common_prefix, Comparator, KeyOrder};
use vstd::prelude::*;

verus! {

/// The state after the first `k` entries.
pub open spec fn state_at(entries: Seq<(Seq<u8>, Seq<u8>)>, interval: nat, k: nat) -> BuildState {
    build_state(entries.take(k as int), interval)
}

proof fn lemma_state_next(entries: Seq<(Seq<u8>, Seq<u8>)>, interval: nat, k: nat)
    requires
        k < entries.len(),
    ensures
        state_at(entries, interval, k + 1) == add_step(
            state_at(entries, interval, k),
            entries[k as int].0,
            entries[k as int].1,
            interval,
        ),
{
    assert(entries.take((k + 1) as int).drop_last() =~= entries.take(k as int));
}

/// Entry bytes only grow, restart offsets only get appended, and every restart offset
/// lies within the entry bytes.
proof fn lemma_state_prefix(entries: Seq<(Seq<u8>, Seq<u8>)>, interval: nat, k: nat, m: nat)
    requires
        k <= m <= entries.len(),
    ensures
        state_at(entries, interval, k).bytes.len() <= state_at(entries, interval, m).bytes.len(),
        state_at(entries, interval, m).bytes.subrange(0, state_at(entries, interval, k).bytes.len() as int)
            == state_at(entries, interval, k).bytes,
        k < m ==> state_at(entries, interval, k).bytes.len() + 3 <= state_at(entries, interval, m).bytes.len(),
        state_at(entries, interval, k).restarts.len() <= state_at(entries, interval, m).restarts.len(),
        state_at(entries, interval, k).restarts.len() >= 1,
        forall|i: int|
            0 <= i < state_at(entries, interval, m).restarts.len() ==> state_at(entries, interval, m).restarts[i]
                <= state_at(entries, interval, m).bytes.len(),
        state_at(entries, interval, m).restarts.len() <= m + 1,
        state_at(entries, interval, m).restarts[0] == 0,
        state_at(entries, interval, m).last_key.len() <= state_at(entries, interval, m).bytes.len(),
    decreases m,
{
    if m == 0 {
        assert(entries.take(0) =~= Seq::<(Seq<u8>, Seq<u8>)>::empty());
        let s0 = state_at(entries, interval, 0);
        assert(s0.bytes.subrange(0, 0) =~= s0.bytes);
    } else {
        let pm = (m - 1) as nat;
        lemma_state_next(entries, interval, pm);
        let prev = state_at(entries, interval, pm);
        let cur = state_at(entries, interval, m);
        let e = entries[pm as int];
        let shared = if prev.counter < interval { common_prefix_len(e.0, prev.last_key) } else { 0 };
        proof_entry_len(shared, e.0, e.1, prev.last_key, prev.counter < interval);
        if k == m {
            assert(cur.bytes.subrange(0, cur.bytes.len() as int) =~= cur.bytes);
            lemma_state_prefix(entries, interval, pm, pm);
        } else {
            lemma_state_prefix(entries, interval, k, pm);
            let kb = state_at(entries, interval, k).bytes;
            assert(cur.bytes.subrange(0, kb.len() as int) =~= prev.bytes.subrange(0, kb.len() as int));
        }
        assert forall|i: int| 0 <= i < cur.restarts.len() implies cur.restarts[i] <= cur.bytes.len() by {
            if i < prev.restarts.len() {
                assert(cur.restarts[i] == prev.restarts[i]);
            }
        }
    }
}

/// An entry takes at least three bytes, and its shared prefix is no longer than the key
/// before it.
proof fn proof_entry_len(shared: nat, key: Seq<u8>, value: Seq<u8>, last: Seq<u8>, compressed: bool)
    requires
        shared == if compressed { common_prefix_len(key, last) } else { 0 },
    ensures
        entry_bytes(shared, key, value).len() >= 3,
        entry_bytes(shared, key, value).len() >= key.len() - shared + value.len(),
        shared <= key.len(),
        shared <= last.len(),
        last.take(shared as int) == key.take(shared as int),
{
    lemma_common_prefix(key, last);
    lemma_varint_bytes_bound(shared);
    lemma_varint_bytes_bound((key.len() - shared) as nat);
    lemma_varint_bytes_bound(value.len());
    assert(last.take(shared as int) =~= key.take(shared as int));
}

/// The entry bytes of `entries`, followed by anything.
pub open spec fn built_with_tail(entries: Seq<(Seq<u8>, Seq<u8>)>, interval: nat, data: Seq<u8>) -> bool {
    let st = build_state(entries, interval);
    &&& data.len() >= st.bytes.len()
    &&& data.subrange(0, st.bytes.len() as int) == st.bytes
    &&& data.len() <= u32::MAX
}

/// The header length of an entry's encoding.
pub open spec fn entry_header_len(shared: nat, key: Seq<u8>, value: Seq<u8>) -> nat {
    varint_bytes(shared).len() + varint_bytes((key.len() - shared) as nat).len() + varint_bytes(
        value.len(),
    ).len()
}

/// Decoding an encoded entry, whatever follows it, gives back its lengths, and its key
/// suffix and value lie right after the header.
#[verifier::rlimit(40)]
proof fn lemma_decode_entry_bytes(shared: nat, key: Seq<u8>, value: Seq<u8>, tail: Seq<u8>)
    requires
        shared <= key.len(),
        key.len() < 0x1_0000_0000,
        value.len() < 0x1_0000_0000,
    ensures
        ({
            let p = entry_bytes(shared, key, value) + tail;
            let h = entry_header_len(shared, key, value);
            let ns = (key.len() - shared) as nat;
            &&& spec_decode_entry(p) == Some((h, shared as u32, ns as u32, value.len() as u32))
            &&& p.subrange(h as int, (h + ns) as int) == key.skip(shared as int)
            &&& p.subrange((h + ns) as int, (h + ns + value.len()) as int) == value
            &&& entry_bytes(shared, key, value).len() == h + ns + value.len()
        }),
{
    let ns = (key.len() - shared) as nat;
    let vl = value.len();
    let v1 = varint_bytes(shared);
    let v2 = varint_bytes(ns);
    let v3 = varint_bytes(vl);
    let body = key.skip(shared as int) + value;
    let p = entry_bytes(shared, key, value) + tail;
    assert(p =~= v1 + (v2 + (v3 + (body + tail))));
    lemma_varint32_roundtrip(shared as u32, v2 + (v3 + (body + tail)));
    assert(p.skip(v1.len() as int) =~= v2 + (v3 + (body + tail)));
    lemma_varint32_roundtrip(ns as u32, v3 + (body + tail));
    assert(p.skip((v1.len() + v2.len()) as int) =~= v3 + (body + tail));
    lemma_varint32_roundtrip(vl as u32, body + tail);
    lemma_varint_bytes_bound(shared);
    lemma_varint_bytes_bound(ns);
    lemma_varint_bytes_bound(vl);
    let h = v1.len() + v2.len() + v3.len();
    assert(p.subrange(h as int, (h + ns) as int) =~= key.skip(shared as int));
    assert(p.subrange((h + ns) as int, (h + ns + vl) as int) =~= value);
}

/// Reading at `off`, where an encoded entry lies, gives that entry.
proof fn lemma_step_at(
    data: Seq<u8>,
    limit: nat,
    off: nat,
    prev: Seq<u8>,
    shared: nat,
    key: Seq<u8>,
    value: Seq<u8>,
)
    requires
        off < limit,
        off + entry_bytes(shared, key, value).len() <= data.len(),
        data.subrange(off as int, (off + entry_bytes(shared, key, value).len()) as int) == entry_bytes(
            shared,
            key,
            value,
        ),
        shared <= key.len(),
        shared <= prev.len(),
        prev.take(shared as int) == key.take(shared as int),
        key.len() < 0x1_0000_0000,
        value.len() < 0x1_0000_0000,
    ensures
        step(data, limit, off, prev) matches Step::Entry { key: k, value_start, value_len, next }
            && k == key && next == off + entry_bytes(shared, key, value).len() && data.subrange(
            value_start as int,
            next as int,
        ) == value,
{
    let eb = entry_bytes(shared, key, value);
    let p = data.skip(off as int);
    let rest = p.skip(eb.len() as int);
    assert(p =~= eb + rest) by {
        assert forall|i: int| 0 <= i < eb.len() implies p[i] == eb[i] by {
            assert(p[i] == data[off + i]);
            assert(data.subrange(off as int, (off + eb.len()) as int)[i] == data[off + i]);
        }
    }
    lemma_decode_entry_bytes(shared, key, value, rest);
    let h = entry_header_len(shared, key, value);
    let ns = (key.len() - shared) as nat;
    let ks = off + h;
    assert(data.subrange(ks as int, (ks + ns) as int) =~= p.subrange(h as int, (h + ns) as int));
    assert(data.subrange((ks + ns) as int, (ks + ns + value.len()) as int) =~= p.subrange(
        (h + ns) as int,
        (h + ns + value.len()) as int,
    ));
    assert(prev.take(shared as int) + key.skip(shared as int) =~= key);
}

/// Reading entry `k` of a block built from `entries` gives that entry back.
proof fn lemma_step_built(entries: Seq<(Seq<u8>, Seq<u8>)>, interval: nat, data: Seq<u8>, k: nat)
    requires
        k < entries.len(),
        built_with_tail(entries, interval, data),
    ensures
        ({
            let sk = state_at(entries, interval, k);
            let sk1 = state_at(entries, interval, k + 1);
            let limit = build_state(entries, interval).bytes.len();
            step(data, limit, sk.bytes.len(), sk.last_key) matches Step::Entry {
                key,
                value_start,
                value_len,
                next,
            } && key == entries[k as int].0 && next == sk1.bytes.len() && data.subrange(
                value_start as int,
                next as int,
            ) == entries[k as int].1 && sk1.last_key == key
        }),
{
    let n = entries.len();
    assert(entries.take(n as int) =~= entries);
    lemma_state_next(entries, interval, k);
    lemma_state_prefix(entries, interval, k, k + 1);
    lemma_state_prefix(entries, interval, k + 1, n);
    let sk = state_at(entries, interval, k);
    let sk1 = state_at(entries, interval, k + 1);
    let st = state_at(entries, interval, n);
    let key = entries[k as int].0;
    let value = entries[k as int].1;
    let compressed = sk.counter < interval;
    let shared: nat = if compressed { common_prefix_len(key, sk.last_key) } else { 0 };
    proof_entry_len(shared, key, value, sk.last_key, compressed);
    let eb = entry_bytes(shared, key, value);
    let off = sk.bytes.len();
    assert(sk1.bytes == sk.bytes + eb);
    assert(data.subrange(off as int, (off + eb.len()) as int) =~= eb) by {
        assert(data.subrange(off as int, (off + eb.len()) as int) =~= st.bytes.subrange(off as int, (off + eb.len()) as int));
        assert(st.bytes.subrange(off as int, (off + eb.len()) as int) =~= sk1.bytes.subrange(off as int, (off + eb.len()) as int));
    }
    lemma_step_at(data, st.bytes.len(), off, sk.last_key, shared, key, value);
}

/// Reading a block built from `entries` from the start of entry `k` gives the entries
/// from `k` on.
proof fn lemma_parse_built(entries: Seq<(Seq<u8>, Seq<u8>)>, interval: nat, data: Seq<u8>, k: nat)
    requires
        k <= entries.len(),
        built_with_tail(entries, interval, data),
    ensures
        parse_entries(
            data,
            build_state(entries, interval).bytes.len(),
            state_at(entries, interval, k).bytes.len(),
            state_at(entries, interval, k).last_key,
        ) == Some(entries.skip(k as int)),
    decreases entries.len() - k,
{
    let n = entries.len();
    assert(entries.take(n as int) =~= entries);
    lemma_state_prefix(entries, interval, k, n);
    if k == n {
        assert(entries.skip(k as int) =~= Seq::<(Seq<u8>, Seq<u8>)>::empty());
    } else {
        lemma_step_built(entries, interval, data, k);
        lemma_parse_built(entries, interval, data, k + 1);
        let sk = state_at(entries, interval, k);
        lemma_step_advances(data, build_state(entries, interval).bytes.len(), sk.bytes.len(), sk.last_key);
        assert(entries.skip(k as int) =~= seq![entries[k as int]] + entries.skip((k + 1) as int));
    }
}

/// The restart array holds four bytes per offset, offset `i` at bytes `4i..4i+4`.
pub proof fn lemma_restart_array(restarts: Seq<u32>)
    ensures
        restart_array_bytes(restarts).len() == 4 * restarts.len(),
        forall|i: int|
            0 <= i < restarts.len() ==> #[trigger] restart_array_bytes(restarts).subrange(4 * i, 4 * i + 4)
                == fixed32_bytes(restarts[i]),
    decreases restarts.len(),
{
    if restarts.len() > 0 {
        let init = restarts.drop_last();
        lemma_restart_array(init);
        let b = restart_array_bytes(restarts);
        assert forall|i: int| 0 <= i < restarts.len() implies #[trigger] b.subrange(4 * i, 4 * i + 4)
            == fixed32_bytes(restarts[i]) by {
            if i < init.len() {
                assert(b.subrange(4 * i, 4 * i + 4) =~= restart_array_bytes(init).subrange(4 * i, 4 * i + 4));
            } else {
                assert(b.subrange(4 * i, 4 * i + 4) =~= fixed32_bytes(restarts.last()));
            }
        }
    }
}

/// A finished block is laid out as the builder wrote it: its restart array starts where
/// the entries end, and each restart point reads back as the offset recorded.
proof fn lemma_built_layout(entries: Seq<(Seq<u8>, Seq<u8>)>, interval: nat)
    requires
        block_bytes(build_state(entries, interval)).len() <= u32::MAX,
    ensures
        ({
            let st = build_state(entries, interval);
            let data = block_bytes(st);
            &&& block_layout_ok(data)
            &&& stored_restarts(data) == st.restarts.len()
            &&& restart_array_start(data) == st.bytes.len()
            &&& forall|i: nat| i < st.restarts.len() ==> #[trigger] restart_point(data, st.bytes.len(), i)
                == st.restarts[i as int]
            &&& built_with_tail(entries, interval, data)
        }),
{
    let st = build_state(entries, interval);
    let data = block_bytes(st);
    let n = entries.len();
    assert(entries.take(n as int) =~= entries);
    lemma_state_prefix(entries, interval, n, n);
    lemma_restart_array(st.restarts);
    let r = st.restarts.len();
    let ra = restart_array_bytes(st.restarts);
    lemma_fixed32_roundtrip(r as u32, Seq::empty());
    assert(data.skip(data.len() - 4) =~= fixed32_bytes(r as u32) + Seq::<u8>::empty());
    assert(data.subrange(0, st.bytes.len() as int) =~= st.bytes);
    assert forall|i: nat| i < r implies #[trigger] restart_point(data, st.bytes.len(), i) == st.restarts[i as int] by {
        let tail = data.skip((st.bytes.len() + 4 * i) as int);
        assert(tail.subrange(0, 4) =~= ra.subrange((4 * i) as int, (4 * i + 4) as int));
        lemma_fixed32_roundtrip(st.restarts[i as int], tail.skip(4));
        assert(fixed32_bytes(st.restarts[i as int]) + tail.skip(4) =~= tail);
    }
}

/// Law: a block finished by the builder from `entries` reads back, from its first byte
/// to its restart array, as exactly those entries, whatever the restart interval.
pub proof fn lemma_block_roundtrip(entries: Seq<(Seq<u8>, Seq<u8>)>, interval: nat)
    requires
        block_bytes(build_state(entries, interval)).len() <= u32::MAX,
    ensures
        block_entries(block_bytes(build_state(entries, interval))) == Some(entries),
{
    let data = block_bytes(build_state(entries, interval));
    lemma_built_layout(entries, interval);
    lemma_parse_built(entries, interval, data, 0);
    assert(entries.take(0) =~= Seq::<(Seq<u8>, Seq<u8>)>::empty());
    assert(entries.skip(0) =~= entries);
}

/// Law: a comparator that accepts every key, such as the bytewise one, can walk any block
/// the builder finishes.
pub proof fn lemma_built_block_iterable<C: Comparator>(entries: Seq<(Seq<u8>, Seq<u8>)>, interval: nat)
    requires
        block_bytes(build_state(entries, interval)).len() <= u32::MAX,
        forall|k: Seq<u8>| C::accepts(k),
    ensures
        iterable::<C>(block_bytes(build_state(entries, interval))),
{
    let st = build_state(entries, interval);
    let data = block_bytes(st);
    let n = entries.len();
    assert(entries.take(n as int) =~= entries);
    lemma_built_layout(entries, interval);
    lemma_state_prefix(entries, interval, n, n);
    lemma_restart_array(st.restarts);
    let restarts = restart_array_start(data);
    reveal(iterable);
    assert forall|i: nat| i < stored_restarts(data) implies #[trigger] restart_point(data, restarts, i)
        <= data.len() by {
        assert(restart_point(data, restarts, i) == st.restarts[i as int]);
    }
    assert forall|i: nat| i < stored_restarts(data) implies chain_accepted::<C>(
        data,
        restarts,
        #[trigger] restart_point(data, restarts, i),
        Seq::empty(),
    ) by {
        lemma_chain_accepted_total::<C>(data, restarts, restart_point(data, restarts, i), Seq::empty());
    }
    lemma_chain_accepted_total::<C>(data, restarts, 0, Seq::empty());
}

/// Law: reading from a position whose remaining entries are `es` yields `es[0]` and leaves
/// `es` minus its first entry to read, or ends without corruption when `es` is empty.
pub proof fn lemma_parse_next_entries(data: Seq<u8>, restarts: nat, num: nat, p: IterPos, es: Seq<(Seq<u8>, Seq<u8>)>)
    requires
        p.next_entry_offset <= data.len(),
        parse_entries(data, restarts, p.next_entry_offset, p.key) == Some(es),
    ensures
        ({
            let (q, ok) = parse_next(data, restarts, num, p);
            &&& ok == (es.len() > 0)
            &&& q.corrupt == p.corrupt
            &&& ok ==> q.current == p.next_entry_offset && p.next_entry_offset < restarts
            &&& !ok ==> q.current == restarts
            &&& ok ==> q.key == es[0].0 && data.subrange(q.value_start as int, q.value_end as int)
                == es[0].1 && q.next_entry_offset <= data.len() && parse_entries(
                data,
                restarts,
                q.next_entry_offset,
                q.key,
            ) == Some(es.drop_first())
        }),
{
    lemma_step_advances(data, restarts, p.next_entry_offset, p.key);
    if let Step::Entry { key, value_start, value_len, next } = step(data, restarts, p.next_entry_offset, p.key) {
        let rest = parse_entries(data, restarts, next, key)->0;
        assert(es =~= seq![(key, data.subrange(value_start as int, next as int))] + rest);
        assert(es.drop_first() =~= rest);
    }
}

// ---------------------------------------------------------------------------
// Seeking in a built block
// ---------------------------------------------------------------------------
/// Entry `k` starts a run: it is written whole, sharing nothing with the key before it.
pub open spec fn starts_run(entries: Seq<(Seq<u8>, Seq<u8>)>, interval: nat, k: nat) -> bool {
    k == 0 || state_at(entries, interval, k).counter >= interval
}

/// Restart `i` of the builder after `m` entries lies where entry `j` starts, and `j` starts
/// a run.
pub open spec fn restart_at_entry(
    entries: Seq<(Seq<u8>, Seq<u8>)>,
    interval: nat,
    m: nat,
    i: int,
    j: nat,
) -> bool {
    &&& j <= m
    &&& (m > 0 ==> j < m)
    &&& state_at(entries, interval, m).restarts[i] == state_at(entries, interval, j).bytes.len()
    &&& starts_run(entries, interval, j)
}

/// Restart `i` of the builder after `m` entries lies where some entry starting a run starts.
pub open spec fn restart_has_entry(entries: Seq<(Seq<u8>, Seq<u8>)>, interval: nat, m: nat, i: int) -> bool {
    exists|j: nat| #[trigger] restart_at_entry(entries, interval, m, i, j)
}

/// Every restart offset the builder records is the start of an entry that starts a run.
proof fn lemma_restarts_at_entries(entries: Seq<(Seq<u8>, Seq<u8>)>, interval: nat, m: nat)
    requires
        m <= entries.len(),
        state_at(entries, interval, entries.len()).bytes.len() < 0x1_0000_0000,
    ensures
        forall|i: int|
            0 <= i < state_at(entries, interval, m).restarts.len() ==> #[trigger] restart_has_entry(
                entries,
                interval,
                m,
                i,
            ),
    decreases m,
{
    if m == 0 {
        assert(entries.take(0) =~= Seq::<(Seq<u8>, Seq<u8>)>::empty());
        assert(restart_at_entry(entries, interval, 0, 0, 0));
        assert(restart_has_entry(entries, interval, 0, 0));
    } else {
        let pm = (m - 1) as nat;
        lemma_restarts_at_entries(entries, interval, pm);
        lemma_state_next(entries, interval, pm);
        lemma_state_prefix(entries, interval, pm, pm);
        let prev = state_at(entries, interval, pm);
        let cur = state_at(entries, interval, m);
        assert forall|i: int| 0 <= i < cur.restarts.len() implies #[trigger] restart_has_entry(
            entries,
            interval,
            m,
            i,
        ) by {
            if i < prev.restarts.len() {
                assert(restart_has_entry(entries, interval, pm, i));
                let j = choose|j: nat| #[trigger] restart_at_entry(entries, interval, pm, i, j);
                assert(cur.restarts[i] == prev.restarts[i]);
                if pm == 0 {
                    assert(entries.take(0) =~= Seq::<(Seq<u8>, Seq<u8>)>::empty());
                }
                assert(restart_at_entry(entries, interval, m, i, j));
            } else {
                lemma_state_prefix(entries, interval, pm, entries.len());
                assert(cur.restarts[i] == prev.bytes.len());
                assert(restart_at_entry(entries, interval, m, i, pm));
            }
        }
    }
}

/// Reading a built block from the start of an entry that starts a run, with no key
/// before it, gives the entries from that one on.
proof fn lemma_parse_from_run(entries: Seq<(Seq<u8>, Seq<u8>)>, interval: nat, data: Seq<u8>, k: nat)
    requires
        k < entries.len(),
        built_with_tail(entries, interval, data),
        starts_run(entries, interval, k),
    ensures
        parse_entries(
            data,
            build_state(entries, interval).bytes.len(),
            state_at(entries, interval, k).bytes.len(),
            Seq::empty(),
        ) == Some(entries.skip(k as int)),
{
    let n = entries.len();
    assert(entries.take(n as int) =~= entries);
    lemma_state_next(entries, interval, k);
    lemma_state_prefix(entries, interval, k, k + 1);
    lemma_state_prefix(entries, interval, k + 1, n);
    let sk = state_at(entries, interval, k);
    let sk1 = state_at(entries, interval, k + 1);
    let st = state_at(entries, interval, n);
    let key = entries[k as int].0;
    let value = entries[k as int].1;
    if k == 0 {
        assert(entries.take(0) =~= Seq::<(Seq<u8>, Seq<u8>)>::empty());
        assert(common_prefix_len(key, sk.last_key) == 0);
    }
    proof_entry_len(0, key, value, sk.last_key, false);
    let eb = entry_bytes(0, key, value);
    let off = sk.bytes.len();
    let limit = st.bytes.len();
    assert(sk1.bytes == sk.bytes + eb);
    assert(data.subrange(off as int, (off + eb.len()) as int) =~= eb) by {
        assert(data.subrange(off as int, (off + eb.len()) as int) =~= st.bytes.subrange(off as int, (off + eb.len()) as int));
        assert(st.bytes.subrange(off as int, (off + eb.len()) as int) =~= sk1.bytes.subrange(off as int, (off + eb.len()) as int));
    }
    assert(Seq::<u8>::empty().take(0) =~= key.take(0));
    lemma_step_at(data, limit, off, Seq::empty(), 0, key, value);
    lemma_step_built(entries, interval, data, k);
    lemma_parse_built(entries, interval, data, k);
    lemma_parse_built(entries, interval, data, k + 1);
    lemma_step_advances(data, limit, off, Seq::empty());
    lemma_step_advances(data, limit, off, sk.last_key);
}

/// An entry that starts a run decodes as sharing nothing, its whole key right after its
/// header.
proof fn lemma_run_key(entries: Seq<(Seq<u8>, Seq<u8>)>, interval: nat, data: Seq<u8>, k: nat)
    requires
        k < entries.len(),
        built_with_tail(entries, interval, data),
        starts_run(entries, interval, k),
    ensures
        ({
            let off = state_at(entries, interval, k).bytes.len();
            spec_decode_entry(data.skip(off as int)) matches Some((h, shared, ns, vl)) && shared == 0
                && data.subrange((off + h) as int, (off + h + ns) as int) == entries[k as int].0
        }),
{
    let n = entries.len();
    assert(entries.take(n as int) =~= entries);
    lemma_state_next(entries, interval, k);
    lemma_state_prefix(entries, interval, k, k + 1);
    lemma_state_prefix(entries, interval, k + 1, n);
    let sk = state_at(entries, interval, k);
    let sk1 = state_at(entries, interval, k + 1);
    let st = state_at(entries, interval, n);
    let key = entries[k as int].0;
    let value = entries[k as int].1;
    if k == 0 {
        assert(entries.take(0) =~= Seq::<(Seq<u8>, Seq<u8>)>::empty());
        assert(common_prefix_len(key, sk.last_key) == 0);
    }
    proof_entry_len(0, key, value, sk.last_key, false);
    let eb = entry_bytes(0, key, value);
    let off = sk.bytes.len();
    assert(sk1.bytes == sk.bytes + eb);
    assert(data.subrange(off as int, (off + eb.len()) as int) =~= eb) by {
        assert(data.subrange(off as int, (off + eb.len()) as int) =~= st.bytes.subrange(off as int, (off + eb.len()) as int));
        assert(st.bytes.subrange(off as int, (off + eb.len()) as int) =~= sk1.bytes.subrange(off as int, (off + eb.len()) as int));
    }
    let p = data.skip(off as int);
    let rest = p.skip(eb.len() as int);
    assert(p =~= eb + rest) by {
        assert forall|i: int| 0 <= i < eb.len() implies p[i] == eb[i] by {
            assert(p[i] == data[off + i]);
            assert(data.subrange(off as int, (off + eb.len()) as int)[i] == data[off + i]);
        }
    }
    lemma_decode_entry_bytes(0, key, value, rest);
    let h = entry_header_len(0, key, value);
    let ns = key.len();
    assert(data.subrange((off + h) as int, (off + h + ns) as int) =~= p.subrange(h as int, (h + ns) as int));
    assert(key.skip(0) =~= key);
}

/// The position of the first entry of `es` whose key does not sort below `target`.
pub open spec fn first_not_below<C: Comparator>(es: Seq<(Seq<u8>, Seq<u8>)>, target: Seq<u8>) -> Option<nat>
    decreases es.len(),
{
    if es.len() == 0 {
        None
    } else if C::order_spec(es[0].0, target) != KeyOrder::Less {
        Some(0)
    } else {
        match first_not_below::<C>(es.drop_first(), target) {
            Some(m) => Some(m + 1),
            None => None,
        }
    }
}

/// Skipping entries that all sort below the target shifts where the first one that does
/// not sort below it stands.
proof fn lemma_first_not_below_skip<C: Comparator>(es: Seq<(Seq<u8>, Seq<u8>)>, target: Seq<u8>, j: nat)
    requires
        j <= es.len(),
        forall|a: int| 0 <= a < j ==> C::order_spec(#[trigger] es[a].0, target) == KeyOrder::Less,
    ensures
        first_not_below::<C>(es, target) == match first_not_below::<C>(es.skip(j as int), target) {
            Some(m) => Some(m + j),
            None => None::<nat>,
        },
    decreases j,
{
    if j == 0 {
        assert(es.skip(0) =~= es);
        match first_not_below::<C>(es, target) {
            Some(m) => {},
            None => {},
        }
    } else {
        assert(C::order_spec(es[0].0, target) == KeyOrder::Less);
        let rest = es.drop_first();
        assert forall|a: int| 0 <= a < j - 1 implies C::order_spec(#[trigger] rest[a].0, target)
            == KeyOrder::Less by {
            assert(rest[a] == es[a + 1]);
        }
        lemma_first_not_below_skip::<C>(rest, target, (j - 1) as nat);
        assert(rest.skip(j - 1) =~= es.skip(j as int));
    }
}

/// The first entry that does not sort below the target is one of the entries.
proof fn lemma_first_not_below_bound<C: Comparator>(es: Seq<(Seq<u8>, Seq<u8>)>, target: Seq<u8>)
    ensures
        first_not_below::<C>(es, target) matches Some(m) ==> m < es.len(),
    decreases es.len(),
{
    if es.len() > 0 && C::order_spec(es[0].0, target) == KeyOrder::Less {
        lemma_first_not_below_bound::<C>(es.drop_first(), target);
    }
}

/// When the first entry sorts below the target, the first one that does not is found
/// one further on among the rest.
proof fn lemma_first_not_below_step<C: Comparator>(es: Seq<(Seq<u8>, Seq<u8>)>, target: Seq<u8>)
    requires
        es.len() > 0,
        C::order_spec(es[0].0, target) == KeyOrder::Less,
    ensures
        match first_not_below::<C>(es.drop_first(), target) {
            Some(m) => first_not_below::<C>(es, target) == Some(m + 1) && es[m + 1int] == es.drop_first()[m as int],
            None => first_not_below::<C>(es, target) is None,
        },
{
    lemma_first_not_below_bound::<C>(es.drop_first(), target);
}

/// The binary search over restart points ends at a restart point whose key sorts below
/// the target, or at the left end of the range.
proof fn lemma_search_restarts<C: Comparator>(
    data: Seq<u8>,
    restarts: nat,
    num: nat,
    left: nat,
    right: nat,
    target: Seq<u8>,
)
    requires
        left <= right < num,
        forall|i: nat| i < num ==> #[trigger] restart_key(data, restarts, i) is Some,
        left == 0 || C::order_spec(restart_key(data, restarts, left)->0, target) == KeyOrder::Less,
    ensures
        search_restarts::<C>(data, restarts, left, right, target) matches Some(l) && left <= l <= right
            && (l == 0 || C::order_spec(restart_key(data, restarts, l)->0, target) == KeyOrder::Less),
    decreases right - left,
{
    if left < right {
        let mid = ((left + right + 1) / 2) as nat;
        assert(restart_key(data, restarts, mid) is Some);
        if C::order_spec(restart_key(data, restarts, mid)->0, target) == KeyOrder::Less {
            lemma_search_restarts::<C>(data, restarts, num, mid, right, target);
        } else {
            lemma_search_restarts::<C>(data, restarts, num, left, (mid - 1) as nat, target);
        }
    }
}

/// Reading entries while their keys sort below the target ends at the first entry that
/// does not, or past the entries.
#[verifier::rlimit(100)]
#[verifier::spinoff_prover]
proof fn lemma_scan_to_target_entries<C: Comparator>(
    data: Seq<u8>,
    restarts: nat,
    num: nat,
    p: IterPos,
    es: Seq<(Seq<u8>, Seq<u8>)>,
    target: Seq<u8>,
)
    requires
        p.next_entry_offset <= data.len(),
        parse_entries(data, restarts, p.next_entry_offset, p.key) == Some(es),
    ensures
        ({
            let q = scan_to_target::<C>(data, restarts, num, p, target);
            match first_not_below::<C>(es, target) {
                Some(m) => q.current < restarts && q.key == es[m as int].0 && data.subrange(
                    q.value_start as int,
                    q.value_end as int,
                ) == es[m as int].1,
                None => q.current >= restarts,
            }
        }),
    decreases es.len(),
{
    lemma_parse_next_entries(data, restarts, num, p, es);
    let (q, ok) = parse_next(data, restarts, num, p);
    if ok && C::order_spec(q.key, target) == KeyOrder::Less {
        lemma_first_not_below_step::<C>(es, target);
        lemma_scan_to_target_entries::<C>(data, restarts, num, q, es.drop_first(), target);
    } else if ok {
        assert(first_not_below::<C>(es, target) == Some(0nat));
    } else {
        assert(es.len() == 0);
    }
}

/// In a block built from keys in strictly increasing order, the search over restart
/// points for `target` ends at a restart point where an entry starting a run begins, and
/// every entry before that one sorts below the target.
#[verifier::rlimit(50)]
proof fn lemma_seek_start<C: Comparator>(entries: Seq<(Seq<u8>, Seq<u8>)>, interval: nat, target: Seq<u8>) -> (r: (
    nat,
    nat,
))
    requires
        entries.len() > 0,
        block_bytes(build_state(entries, interval)).len() <= u32::MAX,
        forall|a: int, b: int|
            0 <= a < b < entries.len() ==> #[trigger] C::order_spec(entries[a].0, entries[b].0)
                == KeyOrder::Less,
        forall|a: int| 0 <= a < entries.len() ==> C::accepts(#[trigger] entries[a].0),
        C::accepts(target),
    ensures
        ({
            let data = block_bytes(build_state(entries, interval));
            let restarts = restart_array_start(data);
            let num = stored_restarts(data) as nat;
            &&& num >= 1
            &&& search_restarts::<C>(data, restarts, 0, (num - 1) as nat, target) == Some(r.0)
            &&& r.1 < entries.len()
            &&& starts_run(entries, interval, r.1)
            &&& restart_point(data, restarts, r.0) == state_at(entries, interval, r.1).bytes.len()
            &&& forall|a: int| 0 <= a < r.1 ==> C::order_spec(#[trigger] entries[a].0, target) == KeyOrder::Less
        }),
{
    let st = build_state(entries, interval);
    let data = block_bytes(st);
    let n = entries.len();
    assert(entries.take(n as int) =~= entries);
    lemma_built_layout(entries, interval);
    let restarts = restart_array_start(data);
    let num = stored_restarts(data) as nat;
    lemma_restarts_at_entries(entries, interval, n);
    lemma_state_prefix(entries, interval, n, n);
    assert forall|i: nat| i < num implies #[trigger] restart_key(data, restarts, i) is Some by {
        assert(restart_has_entry(entries, interval, n, i as int));
        let j = choose|j: nat| #[trigger] restart_at_entry(entries, interval, n, i as int, j);
        lemma_run_key(entries, interval, data, j);
    }
    lemma_search_restarts::<C>(data, restarts, num, 0, (num - 1) as nat, target);
    let l = search_restarts::<C>(data, restarts, 0, (num - 1) as nat, target)->0;
    assert(restart_has_entry(entries, interval, n, l as int));
    let j = choose|j: nat| #[trigger] restart_at_entry(entries, interval, n, l as int, j);
    lemma_run_key(entries, interval, data, j);
    assert(restart_key(data, restarts, l) == Some(entries[j as int].0));
    assert forall|a: int| 0 <= a < j implies C::order_spec(#[trigger] entries[a].0, target)
        == KeyOrder::Less by {
        if l == 0 {
            assert(st.restarts[0] == 0);
            lemma_state_prefix(entries, interval, 0, j);
            assert(entries.take(0) =~= Seq::<(Seq<u8>, Seq<u8>)>::empty());
        } else {
            assert(C::order_spec(entries[a].0, entries[j as int].0) == KeyOrder::Less);
            C::lemma_order_transitive(entries[a].0, entries[j as int].0, target);
        }
    }
    (l, j)
}

/// Law: in a block built from keys in strictly increasing order, a seek from a new
/// iterator stops at the first entry whose key does not sort below the target, with that
/// entry's key and value; when there is none the iterator ends up past the end.
pub proof fn lemma_seek_built<C: Comparator>(
    entries: Seq<(Seq<u8>, Seq<u8>)>,
    interval: nat,
    target: Seq<u8>,
)
    requires
        block_bytes(build_state(entries, interval)).len() <= u32::MAX,
        forall|a: int, b: int|
            0 <= a < b < entries.len() ==> #[trigger] C::order_spec(entries[a].0, entries[b].0)
                == KeyOrder::Less,
        forall|a: int| 0 <= a < entries.len() ==> C::accepts(#[trigger] entries[a].0),
        C::accepts(target),
    ensures
        ({
            let data = block_bytes(build_state(entries, interval));
            let restarts = restart_array_start(data);
            let q = seek_spec::<C>(data, restarts, stored_restarts(data) as nat, fresh_pos(data), target);
            match first_not_below::<C>(entries, target) {
                Some(k) => q.current < restarts && q.key == entries[k as int].0 && data.subrange(
                    q.value_start as int,
                    q.value_end as int,
                ) == entries[k as int].1,
                None => q.current >= restarts,
            }
        }),
{
    let st = build_state(entries, interval);
    let data = block_bytes(st);
    let n = entries.len();
    assert(entries.take(n as int) =~= entries);
    lemma_built_layout(entries, interval);
    let restarts = restart_array_start(data);
    let num = stored_restarts(data) as nat;
    if n == 0 {
        lemma_state_prefix(entries, interval, n, n);
        assert(st.restarts.len() == 1);
        assert(search_restarts::<C>(data, restarts, 0, 0, target) == Some(0nat));
        let p1 = at_restart(data, restarts, 0, fresh_pos(data));
        assert(parse_entries(data, restarts, 0, Seq::empty()) == Some(Seq::<(Seq<u8>, Seq<u8>)>::empty()));
        lemma_scan_to_target_entries::<C>(data, restarts, num, p1, Seq::empty(), target);
    } else {
        let (l, j) = lemma_seek_start::<C>(entries, interval, target);
        lemma_parse_from_run(entries, interval, data, j);
        let p1 = at_restart(data, restarts, l, fresh_pos(data));
        lemma_scan_to_target_entries::<C>(data, restarts, num, p1, entries.skip(j as int), target);
        lemma_first_not_below_skip::<C>(entries, target, j);
        lemma_first_not_below_bound::<C>(entries, target);
        match first_not_below::<C>(entries.skip(j as int), target) {
            Some(m) => {
                assert(entries.skip(j as int)[m as int] == entries[(m + j) as int]);
            },
            None => {},
        }
    }
}

/// In a block built from keys in strictly increasing order, the search over restart
/// points `left..=right` for `target`, where `left` is the first restart point or one whose
/// key sorts below the target, ends at a restart point where an entry starting a run
/// begins, and every entry before that one sorts below the target.
#[verifier::rlimit(50)]
proof fn lemma_seek_start_range<C: Comparator>(
    entries: Seq<(Seq<u8>, Seq<u8>)>,
    interval: nat,
    target: Seq<u8>,
    left: nat,
    right: nat,
) -> (r: (nat, nat))
    requires
        entries.len() > 0,
        block_bytes(build_state(entries, interval)).len() <= u32::MAX,
        forall|a: int, b: int|
            0 <= a < b < entries.len() ==> #[trigger] C::order_spec(entries[a].0, entries[b].0)
                == KeyOrder::Less,
        forall|a: int| 0 <= a < entries.len() ==> C::accepts(#[trigger] entries[a].0),
        C::accepts(target),
        left <= right < stored_restarts(block_bytes(build_state(entries, interval))),
        left == 0 || C::order_spec(
            restart_key(
                block_bytes(build_state(entries, interval)),
                restart_array_start(block_bytes(build_state(entries, interval))),
                left,
            )->0,
            target,
        ) == KeyOrder::Less,
    ensures
        ({
            let data = block_bytes(build_state(entries, interval));
            let restarts = restart_array_start(data);
            &&& search_restarts::<C>(data, restarts, left, right, target) == Some(r.0)
            &&& r.1 < entries.len()
            &&& starts_run(entries, interval, r.1)
            &&& restart_point(data, restarts, r.0) == state_at(entries, interval, r.1).bytes.len()
            &&& forall|a: int| 0 <= a < r.1 ==> C::order_spec(#[trigger] entries[a].0, target) == KeyOrder::Less
        }),
{
    let st = build_state(entries, interval);
    let data = block_bytes(st);
    let n = entries.len();
    assert(entries.take(n as int) =~= entries);
    lemma_built_layout(entries, interval);
    let restarts = restart_array_start(data);
    let num = stored_restarts(data) as nat;
    lemma_restarts_at_entries(entries, interval, n);
    lemma_state_prefix(entries, interval, n, n);
    assert forall|i: nat| i < num implies #[trigger] restart_key(data, restarts, i) is Some by {
        assert(restart_has_entry(entries, interval, n, i as int));
        let j = choose|j: nat| #[trigger] restart_at_entry(entries, interval, n, i as int, j);
        lemma_run_key(entries, interval, data, j);
    }
    lemma_search_restarts::<C>(data, restarts, num, left, right, target);
    let l = search_restarts::<C>(data, restarts, left, right, target)->0;
    assert(restart_has_entry(entries, interval, n, l as int));
    let j = choose|j: nat| #[trigger] restart_at_entry(entries, interval, n, l as int, j);
    lemma_run_key(entries, interval, data, j);
    assert(restart_key(data, restarts, l) == Some(entries[j as int].0));
    assert forall|a: int| 0 <= a < j implies C::order_spec(#[trigger] entries[a].0, target)
        == KeyOrder::Less by {
        if l == 0 {
            assert(st.restarts[0] == 0);
            lemma_state_prefix(entries, interval, 0, j);
            assert(entries.take(0) =~= Seq::<(Seq<u8>, Seq<u8>)>::empty());
        } else {
            assert(C::order_spec(entries[a].0, entries[j as int].0) == KeyOrder::Less);
            C::lemma_order_transitive(entries[a].0, entries[j as int].0, target);
        }
    }
    (l, j)
}

/// `p` is an iterator position at entry `k` of the block `entries` built into `data`: its
/// key and value are the entry's, reading on from it gives the entries after it, and its
/// restart index is that of a restart point where an entry at or before it starts a run.
pub open spec fn pos_at_entry(
    entries: Seq<(Seq<u8>, Seq<u8>)>,
    interval: nat,
    data: Seq<u8>,
    k: nat,
    p: IterPos,
) -> bool {
    let restarts = restart_array_start(data);
    &&& k < entries.len()
    &&& p.current < restarts
    &&& p.key == entries[k as int].0
    &&& data.subrange(p.value_start as int, p.value_end as int) == entries[k as int].1
    &&& p.next_entry_offset <= data.len()
    &&& parse_entries(data, restarts, p.next_entry_offset, p.key) == Some(entries.skip((k + 1) as int))
    &&& p.restart_index < stored_restarts(data)
    &&& exists|j: nat|
        j <= k && starts_run(entries, interval, j) && #[trigger] restart_point(data, restarts, p.restart_index)
            == state_at(entries, interval, j).bytes.len()
}

/// Where a seek for `target` lands in `data` built from `entries`: at the first entry
/// whose key does not sort below the target, with its key and value, or past the end.
pub open spec fn seek_lands<C: Comparator>(
    entries: Seq<(Seq<u8>, Seq<u8>)>,
    data: Seq<u8>,
    target: Seq<u8>,
    q: IterPos,
) -> bool {
    let restarts = restart_array_start(data);
    match first_not_below::<C>(entries, target) {
        Some(m) => q.current < restarts && q.key == entries[m as int].0 && data.subrange(
            q.value_start as int,
            q.value_end as int,
        ) == entries[m as int].1,
        None => q.current >= restarts,
    }
}

/// Scanning from a restart point where entry `j` starts a run, every entry before `j`
/// sorting below the target, lands where a seek should.
proof fn lemma_scan_from_run<C: Comparator>(
    entries: Seq<(Seq<u8>, Seq<u8>)>,
    interval: nat,
    target: Seq<u8>,
    p: IterPos,
    l: nat,
    j: nat,
)
    requires
        block_bytes(build_state(entries, interval)).len() <= u32::MAX,
        j < entries.len(),
        starts_run(entries, interval, j),
        restart_point(
            block_bytes(build_state(entries, interval)),
            restart_array_start(block_bytes(build_state(entries, interval))),
            l,
        ) == state_at(entries, interval, j).bytes.len(),
        forall|a: int| 0 <= a < j ==> C::order_spec(#[trigger] entries[a].0, target) == KeyOrder::Less,
    ensures
        ({
            let data = block_bytes(build_state(entries, interval));
            let restarts = restart_array_start(data);
            seek_lands::<C>(
                entries,
                data,
                target,
                scan_to_target::<C>(data, restarts, stored_restarts(data) as nat, at_restart(data, restarts, l, p), target),
            )
        }),
{
    let st = build_state(entries, interval);
    let data = block_bytes(st);
    let n = entries.len();
    assert(entries.take(n as int) =~= entries);
    lemma_built_layout(entries, interval);
    let restarts = restart_array_start(data);
    let num = stored_restarts(data) as nat;
    lemma_first_not_below_bound::<C>(entries, target);
    lemma_parse_from_run(entries, interval, data, j);
    let p1 = at_restart(data, restarts, l, p);
    lemma_scan_to_target_entries::<C>(data, restarts, num, p1, entries.skip(j as int), target);
    lemma_first_not_below_skip::<C>(entries, target, j);
    match first_not_below::<C>(entries.skip(j as int), target) {
        Some(m) => {
            assert(entries.skip(j as int)[m as int] == entries[(m + j) as int]);
        },
        None => {},
    }
}

/// Law: in a block built from keys in strictly increasing order, a seek from any position
/// at one of its entries, or past its end, stops where a seek from a new iterator does: at
/// the first entry whose key does not sort below the target, with that entry's key and
/// value, or past the end when there is none.
#[verifier::rlimit(80)]
#[verifier::spinoff_prover]
pub proof fn lemma_seek_built_from<C: Comparator>(
    entries: Seq<(Seq<u8>, Seq<u8>)>,
    interval: nat,
    target: Seq<u8>,
    p: IterPos,
    k: nat,
)
    requires
        block_bytes(build_state(entries, interval)).len() <= u32::MAX,
        forall|a: int, b: int|
            0 <= a < b < entries.len() ==> #[trigger] C::order_spec(entries[a].0, entries[b].0)
                == KeyOrder::Less,
        forall|a: int| 0 <= a < entries.len() ==> C::accepts(#[trigger] entries[a].0),
        C::accepts(target),
        p.current >= restart_array_start(block_bytes(build_state(entries, interval)))
            || pos_at_entry(entries, interval, block_bytes(build_state(entries, interval)), k, p),
    ensures
        ({
            let data = block_bytes(build_state(entries, interval));
            let restarts = restart_array_start(data);
            seek_lands::<C>(entries, data, target, seek_spec::<C>(data, restarts, stored_restarts(data) as nat, p, target))
        }),
{
    let st = build_state(entries, interval);
    let data = block_bytes(st);
    let n = entries.len();
    assert(entries.take(n as int) =~= entries);
    lemma_built_layout(entries, interval);
    let restarts = restart_array_start(data);
    let num = stored_restarts(data) as nat;
    lemma_first_not_below_bound::<C>(entries, target);
    if n == 0 {
        lemma_state_prefix(entries, interval, n, n);
        assert(st.restarts.len() == 1);
        assert(p.current >= restarts);
        assert(search_restarts::<C>(data, restarts, 0, 0, target) == Some(0nat));
        let p1 = at_restart(data, restarts, 0, p);
        assert(parse_entries(data, restarts, 0, Seq::empty()) == Some(Seq::<(Seq<u8>, Seq<u8>)>::empty()));
        lemma_scan_to_target_entries::<C>(data, restarts, num, p1, Seq::empty(), target);
        return;
    }
    let valid = p.current < restarts;
    let o = C::order_spec(p.key, target);
    let _ = lemma_seek_start::<C>(entries, interval, target);
    assert(num >= 1);
    if valid && o == KeyOrder::Equal {
        lemma_seek_equal::<C>(entries, interval, target, p, k);
    } else if valid && o == KeyOrder::Less {
        lemma_seek_less::<C>(entries, interval, target, p, k);
    } else {
        let right: nat = if valid && o == KeyOrder::Greater { p.restart_index } else { (num - 1) as nat };
        if valid {
            assert(pos_at_entry(entries, interval, data, k, p));
        }
        let (l, j) = lemma_seek_start_range::<C>(entries, interval, target, 0, right);
        lemma_scan_from_run::<C>(entries, interval, target, p, l, j);
    }
}

/// A seek from an entry equal to the target stays there.
proof fn lemma_seek_equal<C: Comparator>(
    entries: Seq<(Seq<u8>, Seq<u8>)>,
    interval: nat,
    target: Seq<u8>,
    p: IterPos,
    k: nat,
)
    requires
        block_bytes(build_state(entries, interval)).len() <= u32::MAX,
        forall|a: int, b: int|
            0 <= a < b < entries.len() ==> #[trigger] C::order_spec(entries[a].0, entries[b].0)
                == KeyOrder::Less,
        forall|a: int| 0 <= a < entries.len() ==> C::accepts(#[trigger] entries[a].0),
        C::accepts(target),
        pos_at_entry(entries, interval, block_bytes(build_state(entries, interval)), k, p),
        C::order_spec(p.key, target) == KeyOrder::Equal,
    ensures
        ({
            let data = block_bytes(build_state(entries, interval));
            let restarts = restart_array_start(data);
            seek_lands::<C>(entries, data, target, seek_spec::<C>(data, restarts, stored_restarts(data) as nat, p, target))
        }),
{
    let data = block_bytes(build_state(entries, interval));
    assert forall|a: int| 0 <= a < k implies C::order_spec(#[trigger] entries[a].0, target) == KeyOrder::Less by {
        assert(C::order_spec(entries[a].0, entries[k as int].0) == KeyOrder::Less);
        C::lemma_order_transitive(entries[a].0, entries[k as int].0, target);
    }
    lemma_first_not_below_skip::<C>(entries, target, k);
    assert(entries.skip(k as int)[0] == entries[k as int]);
    assert(first_not_below::<C>(entries.skip(k as int), target) == Some(0nat));
}

/// A seek from an entry that sorts below the target searches on from its restart point.
#[verifier::rlimit(60)]
proof fn lemma_seek_less<C: Comparator>(
    entries: Seq<(Seq<u8>, Seq<u8>)>,
    interval: nat,
    target: Seq<u8>,
    p: IterPos,
    k: nat,
)
    requires
        block_bytes(build_state(entries, interval)).len() <= u32::MAX,
        forall|a: int, b: int|
            0 <= a < b < entries.len() ==> #[trigger] C::order_spec(entries[a].0, entries[b].0)
                == KeyOrder::Less,
        forall|a: int| 0 <= a < entries.len() ==> C::accepts(#[trigger] entries[a].0),
        C::accepts(target),
        pos_at_entry(entries, interval, block_bytes(build_state(entries, interval)), k, p),
        C::order_spec(p.key, target) == KeyOrder::Less,
    ensures
        ({
            let data = block_bytes(build_state(entries, interval));
            let restarts = restart_array_start(data);
            seek_lands::<C>(entries, data, target, seek_spec::<C>(data, restarts, stored_restarts(data) as nat, p, target))
        }),
{
    let st = build_state(entries, interval);
    let data = block_bytes(st);
    let n = entries.len();
    assert(entries.take(n as int) =~= entries);
    lemma_built_layout(entries, interval);
    let restarts = restart_array_start(data);
    let num = stored_restarts(data) as nat;
    lemma_first_not_below_bound::<C>(entries, target);
    let r = p.restart_index;
    let jr = choose|j: nat|
        j <= k && starts_run(entries, interval, j) && #[trigger] restart_point(data, restarts, r)
            == state_at(entries, interval, j).bytes.len();
    lemma_run_key(entries, interval, data, jr);
    assert(restart_key(data, restarts, r) == Some(entries[jr as int].0));
    assert(C::order_spec(entries[jr as int].0, target) == KeyOrder::Less) by {
        if jr < k {
            C::lemma_order_transitive(entries[jr as int].0, entries[k as int].0, target);
        }
    }
    let (l, j) = lemma_seek_start_range::<C>(entries, interval, target, r, (num - 1) as nat);
    if l == r {
        assert forall|a: int| 0 <= a < k + 1 implies C::order_spec(#[trigger] entries[a].0, target) == KeyOrder::Less by {
            if a < k {
                C::lemma_order_transitive(entries[a].0, entries[k as int].0, target);
            }
        }
        lemma_scan_to_target_entries::<C>(data, restarts, num, p, entries.skip((k + 1) as int), target);
        lemma_first_not_below_skip::<C>(entries, target, (k + 1) as nat);
        match first_not_below::<C>(entries.skip((k + 1) as int), target) {
            Some(m) => {
                assert(entries.skip((k + 1) as int)[m as int] == entries[(m + k + 1) as int]);
            },
            None => {},
        }
    } else {
        lemma_scan_from_run::<C>(entries, interval, target, p, l, j);
    }
}

} // verus!
