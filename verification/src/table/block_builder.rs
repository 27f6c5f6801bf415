//! Writing a data block: keys are prefix-compressed against the key before them, except
//! at restart points, which are recorded in an array at the end of the block.
use crate::util::coding::{
    fixed32_bytes, lemma_varint_bytes_bound, put_fixed32, put_varint32, varint_bytes,
};
use crate::util::comparator::{common_prefix_len, lemma_common_prefix};
use crate::util::options::Options;
use bytes::BufMut;
use vstd::prelude::*;

verus! {

// ---------------------------------------------------------------------------
// The byte buffer
// ---------------------------------------------------------------------------
#[verifier::external_type_specification]
#[verifier::external_body]
pub struct ExBytesMut(bytes::BytesMut);

#[verifier::external_type_specification]
#[verifier::external_body]
pub struct ExBytes(bytes::Bytes);

/// The bytes held by a growable buffer.
pub uninterp spec fn bytes_mut_contents(b: bytes::BytesMut) -> Seq<u8>;

/// The bytes held by a frozen buffer.
pub uninterp spec fn bytes_contents(b: bytes::Bytes) -> Seq<u8>;

/// `BytesMut::new`: an empty buffer.
#[verifier::external_body]
fn buffer_new() -> (b: bytes::BytesMut)
    ensures
        bytes_mut_contents(b) == Seq::<u8>::empty(),
{
    bytes::BytesMut::new()
}

/// `BytesMut::len`: the number of bytes held.
#[verifier::external_body]
fn buffer_len(b: &bytes::BytesMut) -> (n: usize)
    ensures
        n == bytes_mut_contents(*b).len(),
{
    b.len()
}

/// `BytesMut::is_empty`: whether no byte is held.
#[verifier::external_body]
fn buffer_is_empty(b: &bytes::BytesMut) -> (r: bool)
    ensures
        r == (bytes_mut_contents(*b).len() == 0),
{
    b.is_empty()
}

/// `BufMut::put_slice` on a `BytesMut`: appends `src`, growing the buffer; the growth
/// panics when the new length overflows.
#[verifier::external_body]
fn buffer_put_slice(b: &mut bytes::BytesMut, src: &[u8])
    requires
        bytes_mut_contents(*old(b)).len() + src@.len() <= isize::MAX,
    ensures
        bytes_mut_contents(*final(b)) == bytes_mut_contents(*old(b)) + src@,
{
    b.put_slice(src)
}

/// `BytesMut::clear`: drops every byte held.
#[verifier::external_body]
fn buffer_clear(b: &mut bytes::BytesMut)
    ensures
        bytes_mut_contents(*final(b)) == Seq::<u8>::empty(),
{
    b.clear()
}

/// `BytesMut::split`: takes out every byte held, leaving the buffer empty.
#[verifier::external_body]
fn buffer_split(b: &mut bytes::BytesMut) -> (r: bytes::BytesMut)
    ensures
        bytes_mut_contents(r) == bytes_mut_contents(*old(b)),
        bytes_mut_contents(*final(b)) == Seq::<u8>::empty(),
{
    b.split()
}

/// `BytesMut::freeze`: the same bytes, frozen.
#[verifier::external_body]
fn buffer_freeze(b: bytes::BytesMut) -> (r: bytes::Bytes)
    ensures
        bytes_contents(r) == bytes_mut_contents(b),
{
    b.freeze()
}

/// `Bytes` as a slice, through `Deref`: the bytes held.
#[verifier::external_body]
pub(crate) fn bytes_as_slice(b: &bytes::Bytes) -> (r: &[u8])
    ensures
        r@ == bytes_contents(*b),
{
    b
}

// ---------------------------------------------------------------------------
// Mathematical model
// ---------------------------------------------------------------------------
/// The encoding of one entry whose key shares its first `shared` bytes with the key
/// before it.
pub open spec fn entry_bytes(shared: nat, key: Seq<u8>, value: Seq<u8>) -> Seq<u8> {
    varint_bytes(shared) + varint_bytes((key.len() - shared) as nat) + varint_bytes(value.len())
        + key.skip(shared as int) + value
}

/// What a builder holds after some entries: the entry bytes, the restart offsets, the
/// number of entries since the last restart point, and the last key.
pub struct BuildState {
    pub bytes: Seq<u8>,
    pub restarts: Seq<u32>,
    pub counter: nat,
    pub last_key: Seq<u8>,
}

/// Adding one entry: a restart point every `interval` entries, and otherwise a key that
/// shares its common prefix with the last one.
pub open spec fn add_step(s: BuildState, key: Seq<u8>, value: Seq<u8>, interval: nat) -> BuildState {
    if s.counter < interval {
        BuildState {
            bytes: s.bytes + entry_bytes(common_prefix_len(key, s.last_key), key, value),
            restarts: s.restarts,
            counter: s.counter + 1,
            last_key: key,
        }
    } else {
        BuildState {
            bytes: s.bytes + entry_bytes(0, key, value),
            restarts: s.restarts.push(s.bytes.len() as u32),
            counter: 1,
            last_key: key,
        }
    }
}

/// The state after adding `entries` to a fresh builder.
pub open spec fn build_state(entries: Seq<(Seq<u8>, Seq<u8>)>, interval: nat) -> BuildState
    decreases entries.len(),
{
    if entries.len() == 0 {
        BuildState { bytes: Seq::empty(), restarts: seq![0u32], counter: 0, last_key: Seq::empty() }
    } else {
        add_step(
            build_state(entries.drop_last(), interval),
            entries.last().0,
            entries.last().1,
            interval,
        )
    }
}

/// The restart offsets as fixed32s.
pub open spec fn restart_array_bytes(restarts: Seq<u32>) -> Seq<u8>
    decreases restarts.len(),
{
    if restarts.len() == 0 {
        Seq::empty()
    } else {
        restart_array_bytes(restarts.drop_last()) + fixed32_bytes(restarts.last())
    }
}

/// The finished block: entry bytes, restart array, restart count.
pub open spec fn block_bytes(s: BuildState) -> Seq<u8> {
    s.bytes + restart_array_bytes(s.restarts) + fixed32_bytes(s.restarts.len() as u32)
}

/// The longest block the builder writes: its offsets are 32-bit and its buffer is
/// addressed by `isize`.
pub open spec fn max_block_len() -> nat {
    if (u32::MAX as int) < (isize::MAX as int) {
        u32::MAX as nat
    } else {
        isize::MAX as nat
    }
}

/// The common prefix is where the two keys first differ or the shorter one ends.
pub proof fn lemma_common_prefix_at(a: Seq<u8>, b: Seq<u8>, j: nat)
    requires
        j <= a.len(),
        j <= b.len(),
        forall|i: int| 0 <= i < j ==> a[i] == b[i],
        j == a.len() || j == b.len() || a[j as int] != b[j as int],
    ensures
        common_prefix_len(a, b) == j,
    decreases j,
{
    if j > 0 {
        assert(a[0] == b[0]);
        let a1 = a.drop_first();
        let b1 = b.drop_first();
        assert forall|i: int| 0 <= i < j - 1 implies a1[i] == b1[i] by {
            assert(a1[i] == a[i + 1]);
            assert(b1[i] == b[i + 1]);
        }
        if j < a.len() && j < b.len() {
            assert(a1[j - 1] == a[j as int]);
            assert(b1[j - 1] == b[j as int]);
        }
        lemma_common_prefix_at(a1, b1, (j - 1) as nat);
    }
}

/// The length of the common prefix of `a` and `b`.
fn common_prefix(a: &[u8], b: &[u8]) -> (r: usize)
    ensures
        r == common_prefix_len(a@, b@),
{
    let min_length = if a.len() < b.len() {
        a.len()
    } else {
        b.len()
    };
    let mut shared: usize = 0;
    while shared < min_length && a[shared] == b[shared]
        invariant
            shared <= min_length,
            min_length <= a@.len(),
            min_length <= b@.len(),
            min_length == a@.len() || min_length == b@.len(),
            forall|i: int| 0 <= i < shared ==> a@[i] == b@[i],
        decreases min_length - shared,
    {
        shared = shared + 1;
    }
    proof {
        lemma_common_prefix_at(a@, b@, shared as nat);
    }
    shared
}

/// Appends the encoding of one entry to `buffer`.
fn append_entry(buffer: &mut bytes::BytesMut, shared: usize, key: &[u8], value: &[u8])
    requires
        shared <= key@.len(),
        bytes_mut_contents(*old(buffer)).len() + 15 + key@.len() + value@.len() <= max_block_len(),
    ensures
        bytes_mut_contents(*final(buffer)) == bytes_mut_contents(*old(buffer)) + entry_bytes(
            shared as nat,
            key@,
            value@,
        ),
{
    proof {
        lemma_varint_bytes_bound(shared as nat);
        lemma_varint_bytes_bound((key@.len() - shared) as nat);
        lemma_varint_bytes_bound(value@.len());
    }
    let non_shared = key.len() - shared;
    buffer_put_slice(buffer, put_varint32(shared as u32).as_slice());
    buffer_put_slice(buffer, put_varint32(non_shared as u32).as_slice());
    buffer_put_slice(buffer, put_varint32(value.len() as u32).as_slice());
    let suffix = &key[shared..key.len()];
    proof {
        assert(suffix@ =~= key@.skip(shared as int));
    }
    buffer_put_slice(buffer, suffix);
    buffer_put_slice(buffer, value);
    proof {
        assert(bytes_mut_contents(*buffer) =~= bytes_mut_contents(*old(buffer)) + entry_bytes(
            shared as nat,
            key@,
            value@,
        ));
    }
}

// ---------------------------------------------------------------------------
// The builder
// ---------------------------------------------------------------------------
/// Builds one data block.
pub struct BlockBuilder {
    options: Options,
    buffer: bytes::BytesMut,
    restarts: Vec<u32>,
    counter: u32,
    finish: bool,
    last_key: Vec<u8>,
    entries: Ghost<Seq<(Seq<u8>, Seq<u8>)>>,
}

impl BlockBuilder {
    /// The entries added since the builder was made or reset.
    pub closed spec fn spec_entries(&self) -> Seq<(Seq<u8>, Seq<u8>)> {
        self.entries@
    }

    /// Every how many entries a restart point is made.
    pub closed spec fn spec_interval(&self) -> nat {
        (self.options.block_restart_interval as u32) as nat
    }

    /// Whether `finish` was called since the builder was made or reset.
    pub closed spec fn spec_finished(&self) -> bool {
        self.finish
    }

    /// The bytes in the buffer.
    pub closed spec fn spec_buffer(&self) -> Seq<u8> {
        bytes_mut_contents(self.buffer)
    }

    /// The restart offsets recorded.
    pub closed spec fn spec_restarts(&self) -> Seq<u32> {
        self.restarts@
    }

    /// The options the builder was made with.
    pub closed spec fn spec_options(&self) -> Options {
        self.options
    }

    /// The fields hold what the entries added make.
    pub closed spec fn wf(&self) -> bool {
        let st = build_state(self.entries@, self.spec_interval());
        &&& self.restarts@ == st.restarts
        &&& !self.finish ==> bytes_mut_contents(self.buffer) == st.bytes
        &&& self.finish ==> bytes_mut_contents(self.buffer) == Seq::<u8>::empty()
        &&& self.counter == st.counter
        &&& self.last_key@ == st.last_key
        &&& st.bytes.len() + 4 * st.restarts.len() + 4 <= max_block_len()
    }

    /// What `current_size_estimate` returns.
    pub closed spec fn spec_estimate(&self) -> nat {
        bytes_mut_contents(self.buffer).len() + 4 * self.restarts@.len() + 4
    }

    /// A builder holding no entries.
    pub fn new(options: Options) -> (r: Self)
        ensures
            r.wf(),
            r.spec_entries() == Seq::<(Seq<u8>, Seq<u8>)>::empty(),
            r.spec_buffer() == Seq::<u8>::empty(),
            !r.spec_finished(),
            r.spec_options() == options,
    {
        let restarts: Vec<u32> = vec![0];
        let last_key: Vec<u8> = Vec::new();
        assert(restarts@ =~= seq![0u32]);
        assert(last_key@ =~= Seq::<u8>::empty());
        BlockBuilder {
            options,
            buffer: buffer_new(),
            restarts,
            counter: 0,
            finish: false,
            last_key,
            entries: Ghost(Seq::empty()),
        }
    }

    /// Forgets every entry, as if the builder were new.
    pub fn reset(&mut self)
        ensures
            final(self).wf(),
            final(self).spec_entries() == Seq::<(Seq<u8>, Seq<u8>)>::empty(),
            final(self).spec_buffer() == Seq::<u8>::empty(),
            !final(self).spec_finished(),
            final(self).spec_options() == old(self).spec_options(),
    {
        buffer_clear(&mut self.buffer);
        self.restarts.clear();
        self.restarts.push(0);
        self.counter = 0;
        self.finish = false;
        self.last_key.clear();
        self.entries = Ghost(Seq::empty());
        proof {
            assert(self.restarts@ =~= seq![0u32]);
            assert(self.last_key@ =~= Seq::<u8>::empty());
        }
    }

    /// The size of the block if it were finished now.
    pub fn current_size_estimate(&self) -> (r: usize)
        requires
            self.wf(),
        ensures
            r == self.spec_estimate(),
    {
        buffer_len(&self.buffer) + self.restarts.len() * 4 + 4
    }

    /// Whether no entry bytes are in the buffer.
    pub fn empty(&self) -> (r: bool)
        ensures
            r == (self.spec_buffer().len() == 0),
    {
        buffer_is_empty(&self.buffer)
    }

    /// Appends an entry, prefix-compressed against the last key unless a restart point is
    /// due. The block must stay within the 32-bit offsets of the format.
    pub fn add(&mut self, key: &[u8], value: &[u8])
        requires
            old(self).wf(),
            !old(self).spec_finished(),
            old(self).spec_estimate() + 19 + key@.len() + value@.len() <= max_block_len(),
        ensures
            final(self).wf(),
            !final(self).spec_finished(),
            final(self).spec_buffer().len() > 0,
            final(self).spec_entries() == old(self).spec_entries().push((key@, value@)),
            final(self).spec_options() == old(self).spec_options(),
            final(self).spec_interval() == old(self).spec_interval(),
    {
        let ghost st0 = build_state(self.entries@, self.spec_interval());
        let shared: usize;
        if self.counter < (#[verifier::truncate] (self.options.block_restart_interval as u32)) {
            shared = common_prefix(key, self.last_key.as_slice());
        } else {
            let offset = buffer_len(&self.buffer) as u32;
            self.restarts.push(offset);
            self.counter = 0;
            shared = 0;
        }
        proof {
            lemma_common_prefix(key@, st0.last_key);
        }
        append_entry(&mut self.buffer, shared, key, value);
        self.last_key.resize(shared, 0);
        self.last_key.extend_from_slice(&key[shared..key.len()]);
        self.counter = self.counter + 1;
        self.entries = Ghost(self.entries@.push((key@, value@)));
        proof {
            let entries = self.entries@;
            let interval = self.spec_interval();
            assert(entries.drop_last() =~= old(self).entries@);
            assert(self.last_key@ =~= key@);
            lemma_varint_bytes_bound(shared as nat);
            lemma_varint_bytes_bound((key@.len() - shared) as nat);
            lemma_varint_bytes_bound(value@.len());
            let st = build_state(entries, interval);
            assert(st == add_step(st0, key@, value@, interval));
            assert(entry_bytes(shared as nat, key@, value@).len() <= 15 + key@.len() + value@.len());
            assert(self.restarts@ == st.restarts);
            assert(bytes_mut_contents(self.buffer) == st.bytes);
            assert(self.counter == st.counter);
        }
    }

    /// Appends the restart array and its length, and hands over the block; the buffer is
    /// left empty.
    pub fn finish(&mut self) -> (r: bytes::Bytes)
        requires
            old(self).wf(),
        ensures
            final(self).wf(),
            final(self).spec_finished(),
            final(self).spec_entries() == old(self).spec_entries(),
            final(self).spec_options() == old(self).spec_options(),
            bytes_contents(r) == old(self).spec_buffer() + restart_array_bytes(
                old(self).spec_restarts(),
            ) + fixed32_bytes(old(self).spec_restarts().len() as u32),
            !old(self).spec_finished() ==> bytes_contents(r) == block_bytes(
                build_state(old(self).spec_entries(), old(self).spec_interval()),
            ),
    {
        let ghost b0 = bytes_mut_contents(self.buffer);
        let mut i: usize = 0;
        while i < self.restarts.len()
            invariant
                i <= self.restarts@.len(),
                self.restarts@ == old(self).restarts@,
                self.entries == old(self).entries,
                self.options == old(self).options,
                self.counter == old(self).counter,
                self.last_key == old(self).last_key,
                self.finish == old(self).finish,
                bytes_mut_contents(self.buffer) == b0 + restart_array_bytes(
                    self.restarts@.take(i as int),
                ),
                b0.len() + 4 * self.restarts@.len() + 4 <= max_block_len(),
                restart_array_bytes(self.restarts@.take(i as int)).len() == 4 * i,
            decreases self.restarts@.len() - i,
        {
            proof {
                assert(self.restarts@.take(i + 1).drop_last() =~= self.restarts@.take(i as int));
            }
            buffer_put_slice(&mut self.buffer, put_fixed32(self.restarts[i]).as_slice());
            i = i + 1;
        }
        proof {
            assert(self.restarts@.take(i as int) =~= self.restarts@);
        }
        buffer_put_slice(&mut self.buffer, put_fixed32(self.restarts.len() as u32).as_slice());
        self.finish = true;
        let taken = buffer_split(&mut self.buffer);
        buffer_freeze(taken)
    }
}

} // verus!
