//! The filter block of a table: one filter per 2 KiB range of data-block offsets, the
//! offset of each filter, the offset of that array, and the base-2 logarithm of the range.
use crate::table::block_builder::restart_array_bytes;
use crate::table::block_roundtrip::lemma_restart_array;
use crate::util::coding::{
    decode_fixed32, fixed32_bytes, fixed32_value, lemma_fixed32_roundtrip, put_fixed32,
};
use crate::util::filter_policy::{key_views, FilterPolicy};
use vstd::prelude::*;

verus! {

/// Filters are generated for every `1 << FILTER_BASE_LG` bytes of data-block offsets.
pub const FILTER_BASE_LG: usize = 11;

/// The range of data-block offsets one filter covers.
pub const FILTER_BASE: usize = 2048;

// ---------------------------------------------------------------------------
// Mathematical model
// ---------------------------------------------------------------------------
/// The filter bytes for a group of keys: none for an empty group.
pub open spec fn group_filter<P: FilterPolicy>(policy: P, group: Seq<Seq<u8>>) -> Seq<u8> {
    if group.len() == 0 {
        Seq::empty()
    } else {
        policy.filter_of(group)
    }
}

/// The filters of `groups`, one after the other.
pub open spec fn filter_data<P: FilterPolicy>(policy: P, groups: Seq<Seq<Seq<u8>>>) -> Seq<u8>
    decreases groups.len(),
{
    if groups.len() == 0 {
        Seq::empty()
    } else {
        filter_data(policy, groups.drop_last()) + group_filter(policy, groups.last())
    }
}

/// Where each filter of `groups` starts.
pub open spec fn filter_offsets_of<P: FilterPolicy>(policy: P, groups: Seq<Seq<Seq<u8>>>) -> Seq<u32> {
    Seq::new(groups.len(), |i: int| filter_data(policy, groups.take(i)).len() as u32)
}

/// The finished filter block for `groups`: the filters, their offsets, the offset of the
/// offsets, and the logarithm of the range each filter covers.
pub open spec fn filter_block_bytes<P: FilterPolicy>(policy: P, groups: Seq<Seq<Seq<u8>>>) -> Seq<u8> {
    let f = filter_data(policy, groups);
    f + restart_array_bytes(filter_offsets_of(policy, groups)) + fixed32_bytes(f.len() as u32)
        + seq![FILTER_BASE_LG as u8]
}

/// The groups after starting the block at `block_offset`: the pending keys close a
/// filter, and empty filters fill the ranges up to that block's.
pub open spec fn groups_after_start(
    groups: Seq<Seq<Seq<u8>>>,
    pending: Seq<Seq<u8>>,
    index: nat,
) -> Seq<Seq<Seq<u8>>> {
    if index > groups.len() {
        groups.push(pending) + Seq::new((index - groups.len() - 1) as nat, |i: int| Seq::<Seq<u8>>::empty())
    } else {
        groups
    }
}

/// What `key_may_match` answers for `data` read as a filter block.
pub open spec fn reader_match<P: FilterPolicy>(policy: P, data: Seq<u8>, block_offset: u64, key: Seq<u8>) -> bool {
    let n = data.len();
    if n < 5 {
        true
    } else {
        let last_word = fixed32_value(data.skip(n - 5));
        if last_word > n - 5 {
            true
        } else {
            let base_lg = data[n - 1];
            let index = ((block_offset as usize) >> (base_lg as usize)) as nat;
            let offset = last_word as nat;
            let num = ((n - 5 - last_word) / 4) as nat;
            if index < num {
                let start = fixed32_value(data.skip((offset + index * 4) as int)) as nat;
                let limit = fixed32_value(data.skip((offset + (index + 1) * 4) as int)) as nat;
                if start <= limit && limit <= offset {
                    policy.may_match(key, data.subrange(start as int, limit as int))
                } else if start == limit {
                    false
                } else {
                    true
                }
            } else {
                true
            }
        }
    }
}

// ---------------------------------------------------------------------------
// Building
// ---------------------------------------------------------------------------
/// Builds the filter block of a table, one filter per range of data-block offsets.
pub struct FilterBlockBuilder<P: FilterPolicy> {
    policy: P,
    keys: Vec<u8>,
    start: Vec<usize>,
    result: Vec<u8>,
    filter_offsets: Vec<u32>,
    groups: Ghost<Seq<Seq<Seq<u8>>>>,
    pending: Ghost<Seq<Seq<u8>>>,
    finished: Ghost<bool>,
}

impl<P: FilterPolicy> FilterBlockBuilder<P> {
    /// The key groups of the filters generated so far.
    pub closed spec fn spec_groups(&self) -> Seq<Seq<Seq<u8>>> {
        self.groups@
    }

    /// The keys added since the last filter was generated.
    pub closed spec fn spec_pending(&self) -> Seq<Seq<u8>> {
        self.pending@
    }

    /// Whether `finish` was called.
    pub closed spec fn spec_finished(&self) -> bool {
        self.finished@
    }

    /// The policy filters are built with.
    pub closed spec fn spec_policy(&self) -> P {
        self.policy
    }

    /// The number of filters generated so far.
    pub closed spec fn spec_num_filters(&self) -> nat {
        self.filter_offsets@.len()
    }

    /// The pending keys are laid out in `keys` at the offsets in `start`, and until the
    /// block is finished the result holds the filters of the groups.
    pub closed spec fn wf(&self) -> bool {
        let n = self.start@.len();
        &&& n == self.pending@.len()
        &&& forall|i: int| 0 <= i < n ==> #[trigger] key_laid_out(self.start@, self.keys@, self.pending@, i)
        &&& self.filter_offsets@.len() == self.groups@.len()
        &&& !self.finished@ ==> self.result@ == filter_data(self.policy, self.groups@)
            && self.filter_offsets@ == filter_offsets_of(self.policy, self.groups@)
    }

    /// A builder with no filters and no keys.
    pub fn new(policy: P) -> (r: Self)
        ensures
            r.wf(),
            r.spec_groups() == Seq::<Seq<Seq<u8>>>::empty(),
            r.spec_pending() == Seq::<Seq<u8>>::empty(),
            !r.spec_finished(),
            r.spec_policy() == policy,
            r.spec_num_filters() == 0,
    {
        let r = FilterBlockBuilder {
            policy,
            keys: Vec::new(),
            start: Vec::new(),
            result: Vec::new(),
            filter_offsets: Vec::new(),
            groups: Ghost(Seq::empty()),
            pending: Ghost(Seq::empty()),
            finished: Ghost(false),
        };
        assert(r.filter_offsets@ =~= filter_offsets_of(r.policy, r.groups@));
        r
    }

    /// Adds a key to the filter of the current data block.
    pub fn add_key(&mut self, key: &[u8])
        requires
            old(self).wf(),
        ensures
            final(self).wf(),
            final(self).spec_pending() == old(self).spec_pending().push(key@),
            final(self).spec_groups() == old(self).spec_groups(),
            final(self).spec_finished() == old(self).spec_finished(),
            final(self).spec_policy() == old(self).spec_policy(),
            final(self).spec_num_filters() == old(self).spec_num_filters(),
    {
        let ghost old_keys = self.keys@;
        let ghost old_start = self.start@;
        self.start.push(self.keys.len());
        self.keys.extend_from_slice(key);
        self.pending = Ghost(self.pending@.push(key@));
        proof {
            let n = self.start@.len();
            assert(self.keys@ =~= old_keys + key@);
            assert forall|i: int| 0 <= i < n implies #[trigger] key_laid_out(
                self.start@,
                self.keys@,
                self.pending@,
                i,
            ) by {
                if i < n - 1 {
                    assert(key_laid_out(old_start, old_keys, old(self).pending@, i));
                    assert(self.start@[i] == old_start[i]);
                    assert(next_start(self.start@, self.keys@.len(), i) == next_start(
                        old_start,
                        old_keys.len(),
                        i,
                    ));
                    assert(self.keys@.subrange(
                        self.start@[i] as int,
                        next_start(self.start@, self.keys@.len(), i) as int,
                    ) =~= old_keys.subrange(
                        old_start[i] as int,
                        next_start(old_start, old_keys.len(), i) as int,
                    ));
                } else {
                    assert(self.keys@.subrange(old_keys.len() as int, self.keys@.len() as int) =~= key@);
                }
            }
        }
    }

    /// Closes the filter of the pending keys, an empty one when there are none.
    pub fn generate_filter(&mut self)
        requires
            old(self).wf(),
        ensures
            final(self).wf(),
            final(self).spec_pending() == Seq::<Seq<u8>>::empty(),
            final(self).spec_groups() == old(self).spec_groups().push(old(self).spec_pending()),
            final(self).spec_finished() == old(self).spec_finished(),
            final(self).spec_policy() == old(self).spec_policy(),
            final(self).spec_num_filters() == old(self).spec_num_filters() + 1,
    {
        let ghost g0 = self.groups@;
        let ghost p0 = self.pending@;
        let num_keys = self.start.len();
        if num_keys == 0 {
            let offset = #[verifier::truncate] (self.result.len() as u32);
            self.filter_offsets.push(offset);
            self.groups = Ghost(self.groups@.push(self.pending@));
            proof {
                assert(self.filter_offsets@.drop_last() =~= old(self).filter_offsets@);
                assert(filter_data(self.policy, g0) + group_filter(self.policy, p0) =~= filter_data(
                    self.policy,
                    g0,
                ));
                self.lemma_groups_pushed(g0, p0);
            }
            return;
        }
        self.start.push(self.keys.len());
        proof {
            assert(self.start@.take(num_keys as int) =~= old(self).start@);
            assert forall|k: int| 0 <= k < num_keys implies #[trigger] key_laid_out(
                self.start@.take(num_keys as int),
                self.keys@,
                p0,
                k,
            ) by {
                assert(key_laid_out(old(self).start@, old(self).keys@, old(self).pending@, k));
            }
        }
        let mut tmp_keys: Vec<&[u8]> = Vec::new();
        let mut i: usize = 0;
        while i < num_keys
            invariant
                i <= num_keys,
                num_keys + 1 == self.start@.len(),
                num_keys == p0.len(),
                self.start@[num_keys as int] == self.keys@.len(),
                forall|k: int| 0 <= k < num_keys ==> #[trigger] key_laid_out(
                    self.start@.take(num_keys as int),
                    self.keys@,
                    p0,
                    k,
                ),
                tmp_keys@.len() == i,
                forall|k: int| 0 <= k < i ==> (#[trigger] tmp_keys@[k])@ == p0[k],
            decreases num_keys - i,
        {
            let s = self.start[i];
            let e = self.start[i + 1];
            proof {
                assert(key_laid_out(self.start@.take(num_keys as int), self.keys@, p0, i as int));
            }
            tmp_keys.push(&self.keys[s..e]);
            i = i + 1;
        }
        let offset = #[verifier::truncate] (self.result.len() as u32);
        self.filter_offsets.push(offset);
        proof {
            assert(key_views(tmp_keys@) =~= p0);
        }
        let mut f = self.policy.create_filter(&tmp_keys);
        self.result.append(&mut f);
        self.keys.clear();
        self.start.clear();
        self.groups = Ghost(self.groups@.push(self.pending@));
        self.pending = Ghost(Seq::empty());
        proof {
            assert(self.filter_offsets@.drop_last() =~= old(self).filter_offsets@);
            self.lemma_groups_pushed(g0, p0);
        }
    }

    /// Prepares for the data block at `block_offset`: filters are closed until the one
    /// covering that offset is the next to be generated.
    pub fn start_block(&mut self, block_offset: u64)
        requires
            old(self).wf(),
            block_offset / (FILTER_BASE as u64) >= old(self).spec_num_filters(),
        ensures
            final(self).wf(),
            final(self).spec_groups() == groups_after_start(
                old(self).spec_groups(),
                old(self).spec_pending(),
                (block_offset / (FILTER_BASE as u64)) as nat,
            ),
            (block_offset / (FILTER_BASE as u64)) as nat > old(self).spec_num_filters()
                ==> final(self).spec_pending() == Seq::<Seq<u8>>::empty(),
            (block_offset / (FILTER_BASE as u64)) as nat <= old(self).spec_num_filters()
                ==> final(self).spec_pending() == old(self).spec_pending(),
            final(self).spec_num_filters() == if (block_offset / (FILTER_BASE as u64)) as nat
                > old(self).spec_num_filters() {
                (block_offset / (FILTER_BASE as u64)) as nat
            } else {
                old(self).spec_num_filters()
            },
            final(self).spec_finished() == old(self).spec_finished(),
            final(self).spec_policy() == old(self).spec_policy(),
    {
        let filter_index = block_offset / (FILTER_BASE as u64);
        let ghost g0 = self.groups@;
        let ghost p0 = self.pending@;
        let ghost n0 = g0.len();
        while filter_index > self.filter_offsets.len() as u64
            invariant
                self.wf(),
                filter_index >= self.groups@.len(),
                self.groups@.len() >= n0,
                self.groups@.len() == self.filter_offsets@.len(),
                self.groups@.len() == n0 ==> self.groups@ == g0 && self.pending@ == p0,
                self.groups@.len() > n0 ==> self.pending@ == Seq::<Seq<u8>>::empty()
                    && self.groups@ == groups_after_start(g0, p0, self.groups@.len() as nat),
                self.finished@ == old(self).finished@,
                self.policy == old(self).policy,
                g0 == old(self).groups@,
                p0 == old(self).pending@,
                n0 == g0.len(),
            decreases filter_index - self.groups@.len(),
        {
            let ghost before = self.groups@;
            self.generate_filter();
            proof {
                let g = self.groups@;
                if before.len() == n0 {
                    assert(g =~= groups_after_start(g0, p0, g.len() as nat));
                } else {
                    assert(g =~= groups_after_start(g0, p0, g.len() as nat));
                }
            }
        }
    }

    /// Closes the last filter if keys are pending, then appends the filter offsets, the
    /// offset of that array and the logarithm of the range a filter covers.
    pub fn finish(&mut self) -> (r: &[u8])
        requires
            old(self).wf(),
        ensures
            final(self).wf(),
            final(self).spec_finished(),
            final(self).spec_policy() == old(self).spec_policy(),
            final(self).spec_groups() == if old(self).spec_pending().len() > 0 {
                old(self).spec_groups().push(old(self).spec_pending())
            } else {
                old(self).spec_groups()
            },
            !old(self).spec_finished() ==> r@ == filter_block_bytes(
                final(self).spec_policy(),
                final(self).spec_groups(),
            ),
    {
        if !self.start.is_empty() {
            self.generate_filter();
        }
        let ghost b0 = self.result@;
        let ghost offsets = self.filter_offsets@;
        proof {
            if !old(self).finished@ {
                assert(b0 == filter_data(self.policy, self.groups@));
                assert(offsets == filter_offsets_of(self.policy, self.groups@));
            }
        }
        self.finished = Ghost(true);
        let array_offset = self.result.len();
        let mut i: usize = 0;
        while i < self.filter_offsets.len()
            invariant
                self.wf(),
                self.finished@,
                i <= self.filter_offsets@.len(),
                self.filter_offsets@ == offsets,
                self.result@ == b0 + restart_array_bytes(offsets.take(i as int)),
                array_offset == b0.len(),
                self.groups == old(self).groups || self.groups@ == old(self).groups@.push(old(self).pending@),
                self.policy == old(self).policy,
            decreases offsets.len() - i,
        {
            proof {
                assert(offsets.take(i + 1).drop_last() =~= offsets.take(i as int));
            }
            let mut word = put_fixed32(self.filter_offsets[i]);
            self.result.append(&mut word);
            i = i + 1;
        }
        proof {
            assert(offsets.take(i as int) =~= offsets);
        }
        let mut word = put_fixed32(#[verifier::truncate] (array_offset as u32));
        self.result.append(&mut word);
        self.result.push(FILTER_BASE_LG as u8);
        self.result.as_slice()
    }

    /// The result and offsets after closing one more filter are those of the longer list
    /// of groups.
    proof fn lemma_groups_pushed(&self, g0: Seq<Seq<Seq<u8>>>, p0: Seq<Seq<u8>>)
        requires
            self.groups@ == g0.push(p0),
            self.filter_offsets@.len() == self.groups@.len(),
            self.filter_offsets@.len() > 0,
            !self.finished@ ==> self.filter_offsets@.drop_last() == filter_offsets_of(self.policy, g0)
                && self.filter_offsets@.last() == filter_data(self.policy, g0).len() as u32
                && self.result@ == filter_data(self.policy, g0) + group_filter(self.policy, p0),
        ensures
            !self.finished@ ==> self.result@ == filter_data(self.policy, self.groups@)
                && self.filter_offsets@ == filter_offsets_of(self.policy, self.groups@),
    {
        if !self.finished@ {
            let g = self.groups@;
            assert(g.drop_last() =~= g0);
            assert forall|i: int| 0 <= i < g.len() implies #[trigger] self.filter_offsets@[i]
                == filter_offsets_of(self.policy, g)[i] by {
                if i < g0.len() {
                    assert(g.take(i) =~= g0.take(i));
                    assert(self.filter_offsets@[i] == self.filter_offsets@.drop_last()[i]);
                } else {
                    assert(g.take(i) =~= g0);
                }
            }
            assert(self.filter_offsets@ =~= filter_offsets_of(self.policy, g));
        }
    }
}

/// Pending key `i` lies in `keys` from `start[i]` to where the next one starts.
pub open spec fn key_laid_out(start: Seq<usize>, keys: Seq<u8>, pending: Seq<Seq<u8>>, i: int) -> bool {
    &&& start[i] <= next_start(start, keys.len(), i) <= keys.len()
    &&& pending[i] == keys.subrange(start[i] as int, next_start(start, keys.len(), i) as int)
}

/// Where pending key `i` ends: where the next one starts, or the end of the keys.
pub open spec fn next_start(start: Seq<usize>, keys_len: nat, i: int) -> nat {
    if i + 1 < start.len() {
        start[i + 1] as nat
    } else {
        keys_len
    }
}

// ---------------------------------------------------------------------------
// Reading
// ---------------------------------------------------------------------------
/// Answers, for a data block's offset, whether a key may be among those added for it.
pub struct FilterBlockReader<'a, P: FilterPolicy> {
    policy: P,
    data: Option<&'a [u8]>,
    offset: usize,
    num: usize,
    base_lg: usize,
    source: Ghost<Seq<u8>>,
}

impl<'a, P: FilterPolicy> FilterBlockReader<'a, P> {
    /// The policy the filters were built with.
    pub closed spec fn spec_policy(&self) -> P {
        self.policy
    }

    /// The filter block the reader was made from.
    pub closed spec fn spec_source(&self) -> Seq<u8> {
        self.source@
    }

    /// The logarithm of the offset range each filter covers, as read from the block.
    pub closed spec fn spec_base_lg(&self) -> nat {
        self.base_lg as nat
    }

    /// The base-2 logarithm of the span of block offsets that one filter covers.
    pub fn base_lg(&self) -> (r: usize)
        ensures
            r == self.spec_base_lg(),
    {
        self.base_lg
    }

    /// The fields hold what the filter block says.
    pub closed spec fn wf(&self) -> bool {
        let d = self.source@;
        let n = d.len();
        if n < 5 {
            self.data is None && self.num == 0 && self.base_lg == 0
        } else {
            let last_word = fixed32_value(d.skip(n - 5));
            &&& self.base_lg == d[n - 1]
            &&& last_word > n - 5 ==> self.data is None && self.num == 0
            &&& last_word <= n - 5 ==> (self.data matches Some(s) && s@ == d && self.offset
                == last_word && self.num == (n - 5 - last_word) / 4)
        }
    }

    /// Reads the trailer of the filter block `data`. A block too short for its trailer,
    /// or whose offset array would start past it, has no filters.
    pub fn new(policy: P, data: &'a [u8]) -> (r: Self)
        ensures
            r.wf(),
            r.spec_policy() == policy,
            r.spec_source() == data@,
            r.spec_base_lg() == if data@.len() < 5 { 0 } else { data@[data@.len() - 1] as nat },
    {
        let mut fb = FilterBlockReader {
            policy,
            data: None,
            offset: 0,
            num: 0,
            base_lg: 0,
            source: Ghost(data@),
        };
        let n = data.len();
        if n < 5 {
            return fb;
        }
        fb.base_lg = data[n - 1] as usize;
        let last_word = decode_fixed32(&data[n - 5..n]);
        proof {
            assert(data@.subrange(n - 5, n as int) =~= data@.skip(n - 5));
        }
        if last_word as usize > n - 5 {
            return fb;
        }
        fb.data = Some(data);
        fb.offset = last_word as usize;
        fb.num = ((n - 5) - last_word as usize) / 4;
        fb
    }

    /// Whether `key` may have been added for the data block at `block_offset`: the
    /// filter covering that offset decides; offsets past the filters, and filters that
    /// cannot be located, answer yes.
    pub fn key_may_match(&self, block_offset: u64, key: &[u8]) -> (r: bool)
        requires
            self.wf(),
            self.spec_base_lg() < usize::BITS,
        ensures
            r == reader_match(self.spec_policy(), self.spec_source(), block_offset, key@),
    {
        let bo = #[verifier::truncate] (block_offset as usize);
        let index = bo >> self.base_lg;
        if index < self.num {
            let d = match self.data {
                Some(d) => d,
                None => {
                    return true;
                },
            };
            let n = d.len();
            let ghost lw = fixed32_value(d@.skip(n - 5));
            assert(self.offset + 4 * self.num <= n - 5) by (nonlinear_arith)
                requires
                    self.num == (n - 5 - lw) / 4,
                    self.offset == lw,
                    lw <= n - 5,
            ;
            let p1 = self.offset + index * 4;
            let p2 = self.offset + (index + 1) * 4;
            let start = decode_fixed32(&d[p1..n]);
            let limit = decode_fixed32(&d[p2..n]);
            proof {
                assert(d@.subrange(p1 as int, n as int) =~= d@.skip(p1 as int));
                assert(d@.subrange(p2 as int, n as int) =~= d@.skip(p2 as int));
            }
            if start <= limit && limit <= self.offset as u32 {
                let filter = &d[start as usize..limit as usize];
                return self.policy.key_may_match(key, filter);
            } else if start == limit {
                return false;
            }
        }
        true
    }
}

// ---------------------------------------------------------------------------
// Laws
// ---------------------------------------------------------------------------
/// The filters of the first `j` groups are a prefix of the filters of all of them, and
/// the filter of group `j` follows them.
proof fn lemma_filter_data_prefix<P: FilterPolicy>(policy: P, groups: Seq<Seq<Seq<u8>>>, j: nat)
    requires
        j <= groups.len(),
    ensures
        filter_data(policy, groups.take(j as int)).len() <= filter_data(policy, groups).len(),
        filter_data(policy, groups).subrange(0, filter_data(policy, groups.take(j as int)).len() as int)
            == filter_data(policy, groups.take(j as int)),
        j < groups.len() ==> filter_data(policy, groups.take((j + 1) as int)) == filter_data(
            policy,
            groups.take(j as int),
        ) + group_filter(policy, groups[j as int]),
    decreases groups.len() - j,
{
    if j < groups.len() {
        assert(groups.take((j + 1) as int).drop_last() =~= groups.take(j as int));
    }
    if j == groups.len() {
        assert(groups.take(j as int) =~= groups);
        let f = filter_data(policy, groups);
        assert(f.subrange(0, f.len() as int) =~= f);
    } else {
        lemma_filter_data_prefix(policy, groups, j + 1);
        let a = filter_data(policy, groups.take(j as int));
        let b = filter_data(policy, groups.take((j + 1) as int));
        let f = filter_data(policy, groups);
        assert(f.subrange(0, a.len() as int) =~= b.subrange(0, a.len() as int));
    }
}

/// The trailer of a finished filter block: the logarithm last, and before it the length
/// of the filters, which leaves room for exactly one offset per group.
proof fn lemma_filter_trailer<P: FilterPolicy>(policy: P, groups: Seq<Seq<Seq<u8>>>)
    requires
        filter_block_bytes(policy, groups).len() <= u32::MAX,
    ensures
        ({
            let data = filter_block_bytes(policy, groups);
            let n = data.len();
            let f = filter_data(policy, groups);
            &&& n >= 5
            &&& data[n - 1] == 11
            &&& fixed32_value(data.skip(n - 5)) == f.len()
            &&& f.len() <= n - 5
            &&& (n - 5 - f.len()) / 4 == groups.len()
        }),
{
    let data = filter_block_bytes(policy, groups);
    let f = filter_data(policy, groups);
    let offsets = filter_offsets_of(policy, groups);
    let n = data.len();
    lemma_restart_array(offsets);
    assert(data.skip(n - 5) =~= fixed32_bytes(f.len() as u32) + seq![11u8]);
    lemma_fixed32_roundtrip(f.len() as u32, seq![11u8]);
}

/// Filter `i` of a finished filter block runs from the offset stored at index `i` of the
/// offset array to the one after it, the last ending where the array starts.
#[verifier::rlimit(40)]
proof fn lemma_filter_bounds<P: FilterPolicy>(policy: P, groups: Seq<Seq<Seq<u8>>>, i: nat)
    requires
        i < groups.len(),
        filter_block_bytes(policy, groups).len() <= u32::MAX,
    ensures
        ({
            let data = filter_block_bytes(policy, groups);
            let f = filter_data(policy, groups);
            let fa = filter_data(policy, groups.take(i as int));
            let fb = filter_data(policy, groups.take((i + 1) as int));
            &&& fixed32_value(data.skip((f.len() + i * 4) as int)) == fa.len()
            &&& fixed32_value(data.skip((f.len() + (i + 1) * 4) as int)) == fb.len()
            &&& fa.len() <= fb.len() <= f.len()
            &&& data.subrange(fa.len() as int, fb.len() as int) == group_filter(policy, groups[i as int])
        }),
{
    let data = filter_block_bytes(policy, groups);
    let f = filter_data(policy, groups);
    let offsets = filter_offsets_of(policy, groups);
    let g = groups.len();
    lemma_restart_array(offsets);
    let arr = restart_array_bytes(offsets);
    lemma_filter_data_prefix(policy, groups, i);
    lemma_filter_data_prefix(policy, groups, i + 1);
    let fa = filter_data(policy, groups.take(i as int));
    let fb = filter_data(policy, groups.take((i + 1) as int));
    let sa = data.skip((f.len() + i * 4) as int);
    assert(sa.subrange(0, 4) =~= arr.subrange((4 * i) as int, (4 * i + 4) as int));
    lemma_fixed32_roundtrip(offsets[i as int], sa.skip(4));
    assert(fixed32_bytes(offsets[i as int]) + sa.skip(4) =~= sa);
    let sb = data.skip((f.len() + (i + 1) * 4) as int);
    if i + 1 < g {
        assert(sb.subrange(0, 4) =~= arr.subrange((4 * (i + 1)) as int, (4 * (i + 1) + 4) as int));
        lemma_fixed32_roundtrip(offsets[(i + 1) as int], sb.skip(4));
        assert(fixed32_bytes(offsets[(i + 1) as int]) + sb.skip(4) =~= sb);
    } else {
        assert(groups.take((i + 1) as int) =~= groups);
        assert(sb =~= fixed32_bytes(f.len() as u32) + seq![11u8]);
        lemma_fixed32_roundtrip(f.len() as u32, seq![11u8]);
    }
    assert(data.subrange(fa.len() as int, fb.len() as int) =~= f.subrange(fa.len() as int, fb.len() as int));
    assert(f.subrange(fa.len() as int, fb.len() as int) =~= fb.subrange(fa.len() as int, fb.len() as int));
    assert(fb.subrange(fa.len() as int, fb.len() as int) =~= group_filter(policy, groups[i as int]));
}

/// Law: a key added for a data block is never ruled out by the finished filter block
/// when asked about that block's offset, provided the policy has no false negatives.
pub proof fn lemma_filter_block_no_false_negatives<P: FilterPolicy>(
    policy: P,
    groups: Seq<Seq<Seq<u8>>>,
    key: Seq<u8>,
    block_offset: u64,
)
    requires
        block_offset / 2048 < groups.len(),
        groups[(block_offset / 2048) as int].contains(key),
        filter_block_bytes(policy, groups).len() <= u32::MAX,
        block_offset <= usize::MAX,
    ensures
        reader_match(policy, filter_block_bytes(policy, groups), block_offset, key),
{
    let i = (block_offset / 2048) as nat;
    lemma_filter_trailer(policy, groups);
    lemma_filter_bounds(policy, groups, i);
    let bo = block_offset as usize;
    assert(bo == block_offset);
    assert(bo >> 11usize == bo / 2048) by (bit_vector);
    assert(groups[i as int].len() > 0);
    policy.lemma_no_false_negatives(groups[i as int], key);
}

/// Law: asked about a data-block offset whose range has a filter, the reader answers
/// what the policy says of that range's filter; a range passed over without keys has an
/// empty filter, so the answer is the policy's answer for an empty filter.
pub proof fn lemma_filter_block_answer<P: FilterPolicy>(
    policy: P,
    groups: Seq<Seq<Seq<u8>>>,
    key: Seq<u8>,
    block_offset: u64,
)
    requires
        block_offset / 2048 < groups.len(),
        filter_block_bytes(policy, groups).len() <= u32::MAX,
        block_offset <= usize::MAX,
    ensures
        reader_match(policy, filter_block_bytes(policy, groups), block_offset, key) == policy.may_match(
            key,
            group_filter(policy, groups[(block_offset / 2048) as int]),
        ),
{
    let i = (block_offset / 2048) as nat;
    lemma_filter_trailer(policy, groups);
    lemma_filter_bounds(policy, groups, i);
    let bo = block_offset as usize;
    assert(bo == block_offset);
    assert(bo >> 11usize == bo / 2048) by (bit_vector);
}

/// Starting a block past the ranges already closed closes the pending keys as one range
/// and leaves every range passed over without keys.
pub proof fn lemma_passed_over_ranges_empty(groups: Seq<Seq<Seq<u8>>>, pending: Seq<Seq<u8>>, index: nat, j: int)
    requires
        index > groups.len(),
        groups.len() < j < index,
    ensures
        groups_after_start(groups, pending, index).len() == index,
        groups_after_start(groups, pending, index)[j] == Seq::<Seq<u8>>::empty(),
        groups_after_start(groups, pending, index)[groups.len() as int] == pending,
{
}

} // verus!
