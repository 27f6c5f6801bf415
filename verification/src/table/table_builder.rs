//! Building a table: data blocks as keys arrive, then the filter block, the meta-index
//! block, the index block and the footer. The builder produces the table's bytes; writing
//! them to a file is left to the caller.
use crate::db::error::DbError;
use crate::table::block_builder::{
    block_bytes, build_state, bytes_as_slice, bytes_contents, max_block_len, BlockBuilder,
};
use crate::table::compression::{
    snappy_compress, snappy_frame_encoded, zstd_compress, zstd_encoded,
};
use crate::table::filter_block::{filter_block_bytes, groups_after_start, FilterBlockBuilder, FILTER_BASE};
use crate::table::format::{
    block_handle_bytes, footer_bytes, spec_block_from_read, BlockHandle, Footer, BLOCK_TRAILER_SIZE,
};
use crate::util::bytes::{append_slice, to_vec};
use crate::util::coding::{fixed32_bytes, put_fixed32};
use crate::util::comparator::{Comparator, KeyOrder};
use crate::util::crc::{crc32_continue, crc32_extended, crc32_of, lemma_crc32_append};
use crate::util::filter_policy::FilterPolicy;
use crate::util::options::{compression_type_code, CompressionType, Options};
use vstd::prelude::*;

verus! {

/// Added to the rotated checksum stored in a block trailer.
pub const MASK_DELTA: u32 = 0xa282ead8;

/// The checksum as stored: rotated right by 15 bits, plus `MASK_DELTA`, modulo 2^32.
pub open spec fn mask_spec(crc: u32) -> u32 {
    ((((crc >> 15u32) | (crc << 17u32)) as int + MASK_DELTA) % 0x1_0000_0000) as u32
}

/// Masks a checksum, so that a checksum of data holding checksums does not look like one.
pub fn mask(crc: u32) -> (r: u32)
    ensures
        r == mask_spec(crc),
{
    ((crc >> 15) | (crc << 17)).wrapping_add(MASK_DELTA)
}

/// The trailer of a block: its type, then the masked checksum of the contents followed
/// by the type, little-endian.
pub open spec fn trailer_bytes(contents: Seq<u8>, block_type: u8) -> Seq<u8> {
    seq![block_type] + fixed32_bytes(mask_spec(crc32_extended(0, contents + seq![block_type])))
}

/// The trailer written after `block_contents`.
pub fn create_block_trailer(block_contents: &[u8], block_type: u8) -> (r: Vec<u8>)
    ensures
        r@ == trailer_bytes(block_contents@, block_type),
{
    let crc0 = crc32_of(block_contents);
    let type_byte: Vec<u8> = vec![block_type];
    let crc = crc32_continue(crc0, type_byte.as_slice());
    proof {
        assert(type_byte@ =~= seq![block_type]);
        lemma_crc32_append(0, block_contents@, seq![block_type]);
    }
    let mut trailer: Vec<u8> = vec![block_type];
    let mut word = put_fixed32(mask(crc));
    trailer.append(&mut word);
    proof {
        assert(trailer@ =~= trailer_bytes(block_contents@, block_type));
    }
    trailer
}

/// What a block is stored as: the compressed bytes with the requested type when
/// compression succeeded and saves at least an eighth, else the raw bytes uncompressed.
pub open spec fn block_encoding(raw: Seq<u8>, compressed: Option<Seq<u8>>, t: CompressionType) -> (Seq<u8>, CompressionType) {
    match compressed {
        Some(c) => if c.len() < raw.len() - raw.len() / 8 {
            (c, t)
        } else {
            (raw, CompressionType::NoCompression)
        },
        None => (raw, CompressionType::NoCompression),
    }
}

/// What compressing `raw` with `t` at zstd level `level` gives when it succeeds.
pub open spec fn compressed_as(raw: Seq<u8>, t: CompressionType, level: i32) -> Option<Seq<u8>> {
    match t {
        CompressionType::NoCompression => None,
        CompressionType::SnappyCompression => Some(snappy_frame_encoded(raw)),
        CompressionType::ZstdCompression => Some(zstd_encoded(raw, level)),
    }
}

/// The bytes a block takes in the table: what `block_encoding` picks, then its trailer,
/// given what compression gave (`None` when it failed or none was asked for).
pub open spec fn stored_block(raw: Seq<u8>, compressed: Option<Seq<u8>>, t: CompressionType) -> Seq<u8> {
    let (contents, ct) = block_encoding(raw, compressed, t);
    contents + trailer_bytes(contents, compression_type_code(ct))
}

/// What compression gave: nothing when none was asked for, snappy's output always, and
/// zstd's output unless zstd reported an error.
pub open spec fn compression_outcome(raw: Seq<u8>, compressed: Option<Seq<u8>>, t: CompressionType, level: i32) -> bool {
    match t {
        CompressionType::NoCompression => compressed is None,
        CompressionType::SnappyCompression => compressed == Some(snappy_frame_encoded(raw)),
        CompressionType::ZstdCompression => compressed is None || compressed == Some(zstd_encoded(raw, level)),
    }
}

/// `after` is the filter builder `before` moved on to the block at `offset`, as
/// `start_block` does; no filter stays no filter.
pub open spec fn filter_advanced<P: FilterPolicy>(
    before: Option<FilterBlockBuilder<P>>,
    after: Option<FilterBlockBuilder<P>>,
    offset: nat,
) -> bool {
    match (before, after) {
        (None, None) => true,
        (Some(b), Some(a)) => {
            let n = offset / (FILTER_BASE as nat);
            &&& a.wf()
            &&& a.spec_groups() == groups_after_start(b.spec_groups(), b.spec_pending(), n)
            &&& a.spec_pending() == if n > b.spec_num_filters() {
                Seq::<Seq<u8>>::empty()
            } else {
                b.spec_pending()
            }
            &&& a.spec_num_filters() == if n > b.spec_num_filters() {
                n
            } else {
                b.spec_num_filters()
            }
            &&& a.spec_finished() == b.spec_finished()
            &&& a.spec_policy() == b.spec_policy()
        },
        _ => false,
    }
}

/// The filter block that finishing the filter builder `f` yields: its groups, with the
/// keys still pending as one more group.
pub open spec fn finished_filter<P: FilterPolicy>(f: FilterBlockBuilder<P>) -> Seq<u8> {
    filter_block_bytes(
        f.spec_policy(),
        if f.spec_pending().len() > 0 {
            f.spec_groups().push(f.spec_pending())
        } else {
            f.spec_groups()
        },
    )
}

/// Storing the block `raw` at the end of `before`, given what compression gave: the
/// block's stored bytes are appended, and the handle points at its contents, when the table
/// stays within `u64::MAX` bytes; otherwise nothing is written and the builder fails.
#[verifier::opaque]
pub open spec fn block_written(
    before: Seq<u8>,
    after: Seq<u8>,
    failed_before: bool,
    failed_after: bool,
    handle: BlockHandle,
    raw: Seq<u8>,
    c: Option<Seq<u8>>,
    options: Options,
) -> bool {
    let stored = stored_block(raw, c, options.compression);
    &&& compression_outcome(raw, c, options.compression, options.zstd_compression_level)
    &&& handle.size == block_encoding(raw, c, options.compression).0.len()
    &&& if before.len() + stored.len() <= u64::MAX {
        after == before + stored && failed_after == failed_before
    } else {
        after == before && failed_after
    }
}

/// The key under which a data block ending with `last_key` is indexed when `next_key`
/// follows it: the comparator's separator, or `last_key` itself when it offers none.
pub open spec fn index_key<C: Comparator>(last_key: Seq<u8>, next_key: Seq<u8>) -> Seq<u8> {
    match C::separator_spec(last_key, next_key) {
        Some(s) => s,
        None => last_key,
    }
}

/// The key under which the last data block is indexed: the comparator's successor of
/// `last_key`, or `last_key` itself when it offers none.
pub open spec fn successor_key<C: Comparator>(last_key: Seq<u8>) -> Seq<u8> {
    match C::successor_spec(last_key) {
        Some(s) => s,
        None => last_key,
    }
}

/// Storing the filter builder `filter`, if any, after `before`: its finished block and
/// an uncompressed trailer are appended when the table stays within `u64::MAX` bytes;
/// otherwise nothing is written and the builder fails.
pub open spec fn filter_stored<P: FilterPolicy>(
    filter: Option<FilterBlockBuilder<P>>,
    before: Seq<u8>,
    after: Seq<u8>,
    failed: bool,
) -> bool {
    match filter {
        None => after == before && !failed,
        Some(f) => {
            let fb = finished_filter(f);
            if before.len() + fb.len() + BLOCK_TRAILER_SIZE <= u64::MAX {
                after == before + fb + trailer_bytes(fb, compression_type_code(CompressionType::NoCompression))
                    && !failed
            } else {
                after == before && failed
            }
        },
    }
}

/// An entry of a `key_len`-byte key and a `value_len`-byte value fits in a block whose
/// size estimate is `estimate`, keeping the block within the 32-bit offsets of its
/// restart points.
pub open spec fn entry_fits(estimate: nat, key_len: nat, value_len: nat) -> bool {
    estimate + key_len + value_len + 19 <= max_block_len()
}

/// A block stored uncompressed reads back as itself: the checks and decoding applied to a
/// block read from a table give the raw bytes again.
pub proof fn lemma_stored_block_reads_back(raw: Seq<u8>, c: Option<Seq<u8>>, t: CompressionType)
    requires
        block_encoding(raw, c, t) == (raw, CompressionType::NoCompression),
    ensures
        spec_block_from_read(stored_block(raw, c, t), stored_block(raw, c, t).len(), raw.len())
            == Ok::<Seq<u8>, Option<Seq<char>>>(raw),
{
    let st = stored_block(raw, c, t);
    assert(trailer_bytes(raw, 0)[0] == 0);
    assert(st[raw.len() as int] == 0);
    assert(st.subrange(0, raw.len() as int) =~= raw);
}

/// Whether an entry of a `key_len`-byte key and a `value_len`-byte value fits in a block
/// whose size estimate is `estimate`, keeping the block within the 32-bit offsets of its
/// restart points.
fn fits_block(estimate: usize, key_len: usize, value_len: usize) -> (r: bool)
    ensures
        r == entry_fits(estimate as nat, key_len as nat, value_len as nat),
{
    let limit: usize = if (u32::MAX as u64) < (isize::MAX as u64) {
        u32::MAX as usize
    } else {
        isize::MAX as usize
    };
    assert(limit == max_block_len());
    if estimate > limit || key_len > limit || value_len > limit {
        return false;
    }
    let total = estimate as u128 + key_len as u128 + value_len as u128 + 19;
    total <= limit as u128
}

/// Builds one table.
pub struct TableBuilder<C: Comparator, P: FilterPolicy> {
    options: Options,
    index_block_options: Options,
    comparator: C,
    output: Vec<u8>,
    offset: u64,
    data_block: BlockBuilder,
    index_block: BlockBuilder,
    last_key: Vec<u8>,
    num_entries: i64,
    closed: bool,
    filter_block: Option<FilterBlockBuilder<P>>,
    pending_index_entry: bool,
    pending_handle: BlockHandle,
    status: Result<(), DbError>,
    written: Ghost<Seq<u8>>,
    drained: Ghost<nat>,
}

impl<C: Comparator, P: FilterPolicy> TableBuilder<C, P> {
    /// Every byte of the table produced so far, handed out or not.
    pub closed spec fn spec_written(&self) -> Seq<u8> {
        self.written@
    }

    /// The offset of the next block: the number of bytes produced.
    pub closed spec fn spec_offset(&self) -> nat {
        self.offset as nat
    }

    /// Whether `finish` was called.
    pub closed spec fn spec_closed(&self) -> bool {
        self.closed
    }

    /// Whether the builder has failed.
    pub closed spec fn spec_failed(&self) -> bool {
        self.status is Err
    }

    /// The number of entries added.
    pub closed spec fn spec_num_entries(&self) -> int {
        self.num_entries as int
    }

    /// The last key added.
    pub closed spec fn spec_last_key(&self) -> Seq<u8> {
        self.last_key@
    }

    /// The options in use.
    pub closed spec fn spec_options(&self) -> Options {
        self.options
    }

    /// The number of bytes handed out so far.
    pub closed spec fn spec_drained(&self) -> nat {
        self.drained@
    }

    /// The size estimate of the data block being built.
    pub closed spec fn spec_data_estimate(&self) -> nat {
        self.data_block.spec_estimate()
    }

    /// Every how many entries the data block makes a restart point.
    pub closed spec fn spec_data_interval(&self) -> nat {
        self.data_block.spec_interval()
    }

    /// The size estimate of the index block being built.
    pub closed spec fn spec_index_estimate(&self) -> nat {
        self.index_block.spec_estimate()
    }

    /// The entries of the index block being built.
    pub closed spec fn spec_index_entries(&self) -> Seq<(Seq<u8>, Seq<u8>)> {
        self.index_block.spec_entries()
    }

    /// Every how many entries the index block makes a restart point.
    pub closed spec fn spec_index_interval(&self) -> nat {
        self.index_block.spec_interval()
    }

    /// The index block as it would be finished once the pending index entry, if any, is
    /// added under the comparator's successor of the last key.
    pub open spec fn final_index_block(&self) -> Seq<u8> {
        block_bytes(build_state(self.final_index_entries(), self.spec_index_interval()))
    }

    /// The index entries once the pending one, if any, is added.
    pub open spec fn final_index_entries(&self) -> Seq<(Seq<u8>, Seq<u8>)> {
        if self.spec_pending_index_entry() {
            self.spec_index_entries().push(
                (successor_key::<C>(self.spec_last_key()), block_handle_bytes(self.spec_pending_handle())),
            )
        } else {
            self.spec_index_entries()
        }
    }

    /// The pending index entry, if any, fits in the index block.
    pub open spec fn final_index_fits(&self) -> bool {
        self.spec_pending_index_entry() ==> entry_fits(
            self.spec_index_estimate(),
            successor_key::<C>(self.spec_last_key()).len(),
            block_handle_bytes(self.spec_pending_handle()).len(),
        )
    }

    /// The index-related state is as in `other`.
    pub closed spec fn same_index(&self, other: &Self) -> bool {
        &&& self.index_block == other.index_block
        &&& self.last_key == other.last_key
        &&& self.pending_index_entry == other.pending_index_entry
        &&& self.pending_handle == other.pending_handle
        &&& self.options == other.options
    }

    /// What flushing `o`, which has not failed, may give: with an empty data block,
    /// nothing changes; otherwise the block is stored, its index entry is due unless that
    /// failed, and the filter moves on to the new offset. The index block, the last key and
    /// the options stay.
    pub open spec fn flush_gives(o: Self, m: Self) -> bool {
        &&& m.spec_options() == o.spec_options()
        &&& m.spec_last_key() == o.spec_last_key()
        &&& m.spec_index_entries() == o.spec_index_entries()
        &&& m.spec_index_estimate() == o.spec_index_estimate()
        &&& m.spec_index_interval() == o.spec_index_interval()
        &&& if o.spec_data_block_empty() {
            &&& m.spec_written() == o.spec_written()
            &&& m.spec_failed() == o.spec_failed()
            &&& m.spec_pending_index_entry() == o.spec_pending_index_entry()
            &&& m.spec_pending_handle() == o.spec_pending_handle()
            &&& m.spec_filter() == o.spec_filter()
        } else {
            &&& m.spec_pending_index_entry() == !m.spec_failed()
            &&& filter_advanced(o.spec_filter(), m.spec_filter(), m.spec_offset())
            &&& exists|c: Option<Seq<u8>>|
                block_written(
                    o.spec_written(),
                    m.spec_written(),
                    false,
                    m.spec_failed(),
                    m.spec_pending_handle(),
                    o.spec_data_block(),
                    c,
                    o.spec_options(),
                )
        }
    }

    /// What `finish` leaves, from the builder `m` that flushing its last data block gave:
    /// unless that failed, the filter block, the empty meta-index block, the index block
    /// and the footer are stored in turn, each when the table stays within `u64::MAX`
    /// bytes, the first that does not failing the builder and ending the writing.
    pub open spec fn finished_from(m: Self, written: Seq<u8>, failed: bool) -> bool {
        if m.spec_failed() {
            written == m.spec_written() && failed
        } else {
            exists|w2: Seq<u8>, f2: bool|
                #[trigger] filter_stored(m.spec_filter(), m.spec_written(), w2, f2) && if f2 {
                    written == w2 && failed
                } else {
                    exists|w3: Seq<u8>, f3: bool, hm: BlockHandle, c: Option<Seq<u8>>|
                        #[trigger] block_written(w2, w3, false, f3, hm, block_bytes(build_state(Seq::empty(), 0)), c, m.spec_options())
                            && hm.offset == w2.len() && if f3 {
                            written == w3 && failed
                        } else if !m.final_index_fits() {
                            written == w3 && failed
                        } else {
                            exists|w4: Seq<u8>, f4: bool, hi: BlockHandle, c2: Option<Seq<u8>>|
                                #[trigger] block_written(w3, w4, false, f4, hi, m.final_index_block(), c2, m.spec_options())
                                    && hi.offset == w3.len() && if f4 {
                                    written == w4 && failed
                                } else if w4.len() + 48 <= u64::MAX {
                                    written == w4 + footer_bytes(Footer { metaindex_handle: hm, index_handle: hi })
                                        && !failed
                                } else {
                                    written == w4 && failed
                                }
                        }
                }
        }
    }

    /// Whether the data block being built holds no entry yet.
    pub closed spec fn spec_data_block_empty(&self) -> bool {
        self.data_block.spec_buffer().len() == 0
    }

    /// The data block being built, laid out as it would be finished.
    pub closed spec fn spec_data_block(&self) -> Seq<u8> {
        block_bytes(build_state(self.data_block.spec_entries(), self.data_block.spec_interval()))
    }

    /// The entries of the data block being built.
    pub closed spec fn spec_data_entries(&self) -> Seq<(Seq<u8>, Seq<u8>)> {
        self.data_block.spec_entries()
    }

    /// Whether the index entry of the last stored data block is still to be added.
    pub closed spec fn spec_pending_index_entry(&self) -> bool {
        self.pending_index_entry
    }

    /// Where the last stored data block lies.
    pub closed spec fn spec_pending_handle(&self) -> BlockHandle {
        self.pending_handle
    }

    /// The filter builder, while there is one.
    pub closed spec fn spec_filter(&self) -> Option<FilterBlockBuilder<P>> {
        self.filter_block
    }

    /// Everything but the bytes produced and the status is as in `other`.
    pub closed spec fn same_blocks(&self, other: &Self) -> bool {
        &&& self.closed == other.closed
        &&& self.num_entries == other.num_entries
        &&& self.last_key == other.last_key
        &&& self.options == other.options
        &&& self.index_block_options == other.index_block_options
        &&& self.pending_index_entry == other.pending_index_entry
        &&& self.pending_handle == other.pending_handle
        &&& self.data_block == other.data_block
        &&& self.index_block == other.index_block
        &&& self.filter_block == other.filter_block
    }

    /// The fields agree: the offset counts the bytes produced, the bytes not yet handed
    /// out end them, and the blocks being built are consistent.
    pub closed spec fn wf(&self) -> bool {
        &&& self.offset == self.written@.len()
        &&& self.drained@ <= self.written@.len()
        &&& self.output@ == self.written@.subrange(self.drained@ as int, self.written@.len() as int)
        &&& self.data_block.wf()
        &&& self.index_block.wf()
        &&& !self.data_block.spec_finished()
        &&& !self.index_block.spec_finished()
        &&& self.filter_block matches Some(f) ==> f.wf() && !f.spec_finished()
        &&& self.num_entries >= 0
        &&& self.num_entries > 0 ==> C::accepts(self.last_key@)
        &&& self.pending_index_entry ==> self.num_entries > 0 && self.data_block.spec_buffer().len() == 0
        &&& self.data_block.spec_buffer().len() > 0 ==> self.num_entries > 0
        &&& self.filter_block matches Some(f) ==> f.spec_num_filters() <= self.offset / 2048
    }

    /// A builder for a table with `options`, keys ordered by `comparator`, and a filter
    /// block built by `filter_policy` if there is one.
    pub fn new(options: Options, comparator: C, filter_policy: Option<P>) -> (r: Self)
        ensures
            r.wf(),
            r.spec_written() == Seq::<u8>::empty(),
            !r.spec_closed(),
            !r.spec_failed(),
            r.spec_num_entries() == 0,
            r.spec_options() == options,
    {
        let mut index_block_options = options;
        let data_block = BlockBuilder::new(options);
        let index_block = BlockBuilder::new(index_block_options);
        let pending_handle = BlockHandle::new();
        index_block_options.block_restart_interval = 1;
        let filter_block = match filter_policy {
            Some(p) => {
                let mut fb = FilterBlockBuilder::new(p);
                fb.start_block(0);
                Some(fb)
            },
            None => None,
        };
        let r = TableBuilder {
            options,
            index_block_options,
            comparator,
            output: Vec::new(),
            offset: 0,
            data_block,
            index_block,
            last_key: Vec::new(),
            num_entries: 0,
            closed: false,
            filter_block,
            pending_index_entry: false,
            pending_handle,
            status: Ok(()),
            written: Ghost(Seq::empty()),
            drained: Ghost(0),
        };
        assert(r.output@ =~= r.written@.subrange(0, 0));
        r
    }

    /// Replaces the options; the index block options get a restart point per entry.
    pub fn change_options(&mut self, options: Options) -> (r: Result<(), DbError>)
        requires
            old(self).wf(),
        ensures
            final(self).wf(),
            r is Ok,
            final(self).spec_options() == options,
            final(self).spec_written() == old(self).spec_written(),
    {
        self.options = options;
        self.index_block_options = options;
        self.index_block_options.block_restart_interval = 1;
        Ok(())
    }

    /// Appends `bytes` to the table.
    fn emit(&mut self, bytes: &[u8])
        requires
            old(self).wf(),
            old(self).spec_offset() + bytes@.len() <= u64::MAX,
        ensures
            final(self).wf(),
            final(self).spec_written() == old(self).spec_written() + bytes@,
            final(self).spec_failed() == old(self).spec_failed(),
            final(self).same_blocks(old(self)),
    {
        append_slice(&mut self.output, bytes);
        self.offset = self.offset + bytes.len() as u64;
        self.written = Ghost(self.written@ + bytes@);
        proof {
            assert(self.output@ =~= self.written@.subrange(self.drained@ as int, self.written@.len() as int));
        }
    }

    /// Hands out the bytes produced since the last call.
    pub fn take_output(&mut self) -> (r: Vec<u8>)
        requires
            old(self).wf(),
        ensures
            final(self).wf(),
            r@ == old(self).spec_written().subrange(old(self).spec_drained() as int, old(self).spec_written().len() as int),
            final(self).spec_written() == old(self).spec_written(),
    {
        let mut r: Vec<u8> = Vec::new();
        std::mem::swap(&mut r, &mut self.output);
        self.drained = Ghost(self.written@.len());
        proof {
            assert(self.output@ =~= self.written@.subrange(self.drained@ as int, self.written@.len() as int));
        }
        r
    }

    /// Stores `block_contents` with a trailer of type `ct` and returns where it lies. An
    /// offset past `u64::MAX` fails the builder instead.
    pub fn write_raw_block(&mut self, block_contents: &[u8], ct: CompressionType) -> (r: BlockHandle)
        requires
            old(self).wf(),
        ensures
            final(self).wf(),
            final(self).same_blocks(old(self)),
            r == (BlockHandle { offset: old(self).spec_offset() as u64, size: block_contents@.len() as u64 }),
            old(self).spec_offset() + block_contents@.len() + BLOCK_TRAILER_SIZE <= u64::MAX ==> final(self).spec_written()
                == old(self).spec_written() + block_contents@ + trailer_bytes(block_contents@, compression_type_code(ct))
                && final(self).spec_failed() == old(self).spec_failed(),
            old(self).spec_offset() + block_contents@.len() + BLOCK_TRAILER_SIZE > u64::MAX ==> final(self).spec_written()
                == old(self).spec_written() && final(self).spec_failed(),
            !final(self).spec_failed() ==> final(self).spec_offset() == r.offset + r.size + BLOCK_TRAILER_SIZE,
    {
        let mut handle = BlockHandle::new();
        handle.set_offset(self.offset);
        handle.set_size(block_contents.len() as u64);
        let need = block_contents.len() as u64;
        if need > u64::MAX - BLOCK_TRAILER_SIZE as u64 || self.offset > u64::MAX
            - BLOCK_TRAILER_SIZE as u64 - need {
            self.status = Err(DbError::InvalidArgument(String::from_str("table too large")));
            return handle;
        }
        self.emit(block_contents);
        let trailer = create_block_trailer(block_contents, ct.as_u8());
        self.emit(trailer.as_slice());
        proof {
            assert(self.written@ =~= old(self).written@ + block_contents@ + trailer_bytes(block_contents@, compression_type_code(ct)));
        }
        handle
    }

    /// Stores the block `raw`, compressed as the options ask when that saves at least an
    /// eighth of it, and returns where it lies.
    pub fn write_block(&mut self, raw: bytes::Bytes) -> (r: BlockHandle)
        requires
            old(self).wf(),
        ensures
            final(self).wf(),
            final(self).same_blocks(old(self)),
            r.offset == old(self).spec_offset(),
            !final(self).spec_failed() ==> final(self).spec_offset() == r.offset + r.size + BLOCK_TRAILER_SIZE,
            exists|c: Option<Seq<u8>>|
                block_written(
                    old(self).spec_written(),
                    final(self).spec_written(),
                    old(self).spec_failed(),
                    final(self).spec_failed(),
                    r,
                    bytes_contents(raw),
                    c,
                    old(self).spec_options(),
                ),
    {
        let raw_s = bytes_as_slice(&raw);
        let t = self.options.compression;
        let compressed: Option<Vec<u8>> = match t {
            CompressionType::NoCompression => None,
            CompressionType::SnappyCompression => snappy_compress(raw_s),
            CompressionType::ZstdCompression => zstd_compress(raw_s, self.options.zstd_compression_level),
        };
        let ghost c: Option<Seq<u8>> = match &compressed {
            Some(v) => Some(v@),
            None => None,
        };
        let handle = match compressed {
            Some(out) => {
                assert(c == Some(out@));
                if out.len() < raw_s.len() - (raw_s.len() / 8) {
                    let n = out.len();
                    let h = self.write_raw_block(out.as_slice(), t);
                    assert(h.size == n);
                    assert(block_encoding(raw_s@, c, t) == (out@, t));
                    h
                } else {
                    let n = raw_s.len();
                    let h = self.write_raw_block(raw_s, CompressionType::NoCompression);
                    assert(h.size == n);
                    assert(block_encoding(raw_s@, c, t) == (raw_s@, CompressionType::NoCompression));
                    h
                }
            },
            None => {
                let n = raw_s.len();
                let h = self.write_raw_block(raw_s, CompressionType::NoCompression);
                assert(h.size == n);
                h
            },
        };
        proof {
            let (contents, ct) = block_encoding(raw_s@, c, t);
            assert(fixed32_bytes(mask_spec(crc32_extended(0, contents + seq![compression_type_code(ct)]))).len() == 4);
            assert(trailer_bytes(contents, compression_type_code(ct)).len() == 5);
            reveal(block_written);
            assert(handle.size == contents.len());
            assert(compression_outcome(raw_s@, c, t, self.options.zstd_compression_level));
            assert(stored_block(raw_s@, c, t) == contents + trailer_bytes(contents, compression_type_code(ct)));
            assert(old(self).spec_written().len() == old(self).spec_offset());
            if old(self).spec_offset() + contents.len() + BLOCK_TRAILER_SIZE <= u64::MAX {
                assert(self.spec_written() == old(self).spec_written() + stored_block(raw_s@, c, t));
            } else {
                assert(self.spec_written() == old(self).spec_written());
            }
            assert(block_written(
                old(self).spec_written(),
                self.spec_written(),
                old(self).spec_failed(),
                self.spec_failed(),
                handle,
                raw_s@,
                c,
                self.options,
            ));
        }
        handle
    }

    /// Stores the data block being built, if it holds anything, and notes that its index
    /// entry is due. The filter moves on to the next block's offset.
    pub fn flush(&mut self)
        requires
            old(self).wf(),
            !old(self).spec_closed(),
        ensures
            final(self).wf(),
            !final(self).spec_closed(),
            final(self).spec_num_entries() == old(self).spec_num_entries(),
            final(self).spec_last_key() == old(self).spec_last_key(),
            final(self).spec_options() == old(self).spec_options(),
            old(self).spec_failed() ==> final(self).spec_written() == old(self).spec_written(),
            old(self).spec_failed() ==> final(self).spec_failed(),
            old(self).spec_failed() || old(self).spec_data_block_empty() ==> *final(self) == *old(self),
            final(self).spec_index_entries() == old(self).spec_index_entries(),
            !old(self).spec_failed() ==> Self::flush_gives(*old(self), *final(self)),
            !old(self).spec_failed() && !old(self).spec_data_block_empty() ==> {
                &&& final(self).spec_data_entries() == Seq::<(Seq<u8>, Seq<u8>)>::empty()
                &&& final(self).spec_data_block_empty()
                &&& final(self).spec_pending_handle().offset == old(self).spec_offset()
                &&& filter_advanced(old(self).spec_filter(), final(self).spec_filter(), final(self).spec_offset())
                &&& final(self).spec_pending_index_entry() == !final(self).spec_failed()
                &&& exists|c: Option<Seq<u8>>|
                    block_written(
                        old(self).spec_written(),
                        final(self).spec_written(),
                        false,
                        final(self).spec_failed(),
                        final(self).spec_pending_handle(),
                        old(self).spec_data_block(),
                        c,
                        old(self).spec_options(),
                    )
            },
    {
        if self.status.is_err() {
            return;
        }
        if self.data_block.empty() {
            return;
        }
        let ghost block = self.spec_data_block();
        let raw = self.data_block.finish();
        self.data_block.reset();
        let ghost s1 = *self;
        let ghost t = self.options.compression;
        let ghost level = self.options.zstd_compression_level;
        let handle = self.write_block(raw);
        let ghost s2 = *self;
        let ghost c = choose|c: Option<Seq<u8>>|
            block_written(s1.spec_written(), s2.spec_written(), s1.spec_failed(), s2.spec_failed(), handle, block, c, s1.options);
        self.pending_handle = handle;
        if self.status.is_ok() {
            self.pending_index_entry = true;
        }
        self.advance_filter();
        proof {
            assert(block_written(s1.spec_written(), s2.spec_written(), s1.spec_failed(), s2.spec_failed(), handle, block, c, s1.options));
            assert(s1.spec_written() == old(self).spec_written());
            assert(s2.spec_written() == self.spec_written());
            assert(!s1.spec_failed());
            assert(s2.spec_failed() == self.spec_failed());
            assert(s1.options == old(self).spec_options());
            assert(handle == self.spec_pending_handle());
            assert(block == old(self).spec_data_block());
            assert(self.spec_pending_index_entry() == !self.spec_failed());
            assert(self.spec_data_entries() == Seq::<(Seq<u8>, Seq<u8>)>::empty());
            assert(self.spec_data_block_empty());
            assert(self.spec_pending_handle().offset == old(self).spec_offset());
        }
    }

    /// Moves the filter on to the block starting at the current offset.
    fn advance_filter(&mut self)
        requires
            old(self).wf(),
        ensures
            final(self).wf(),
            final(self).spec_written() == old(self).spec_written(),
            final(self).status == old(self).status,
            final(self).closed == old(self).closed,
            final(self).num_entries == old(self).num_entries,
            final(self).last_key == old(self).last_key,
            final(self).options == old(self).options,
            final(self).pending_index_entry == old(self).pending_index_entry,
            final(self).pending_handle == old(self).pending_handle,
            final(self).data_block == old(self).data_block,
            final(self).index_block == old(self).index_block,
            filter_advanced(old(self).filter_block, final(self).filter_block, old(self).spec_offset()),
    {
        let offset = self.offset;
        match &mut self.filter_block {
            Some(f) => {
                f.start_block(offset);
            },
            None => {},
        }
    }

    /// Adds `key` with `value`; keys must come in increasing order. The index entry of
    /// the previous data block is written first if due, with a key between that block's
    /// last key and `key`. The data block is stored once it reaches the block size. A
    /// block that would outgrow the format's 32-bit offsets fails the builder instead.
    pub fn add(&mut self, key: &[u8], value: &[u8])
        requires
            old(self).wf(),
            !old(self).spec_closed(),
            C::accepts(key@),
            old(self).spec_num_entries() > 0 ==> C::order_spec(key@, old(self).spec_last_key())
                == KeyOrder::Greater,
            old(self).spec_num_entries() < i64::MAX,
        ensures
            final(self).wf(),
            !final(self).spec_closed(),
            final(self).spec_options() == old(self).spec_options(),
            old(self).spec_failed() ==> final(self).spec_written() == old(self).spec_written()
                && final(self).spec_failed() && final(self).spec_num_entries() == old(self).spec_num_entries(),
            !final(self).spec_failed() ==> final(self).spec_num_entries() == old(self).spec_num_entries() + 1
                && final(self).spec_last_key() == key@,
            old(self).spec_failed() ==> *final(self) == *old(self),
            ({
                let o = *old(self);
                let f = *final(self);
                let ik = index_key::<C>(o.spec_last_key(), key@);
                let index_ok = o.spec_pending_index_entry() ==> entry_fits(
                    o.spec_index_estimate(),
                    ik.len(),
                    block_handle_bytes(o.spec_pending_handle()).len(),
                );
                let added = o.spec_data_entries().push((key@, value@));
                &&& !o.spec_failed() && !index_ok ==> f.spec_failed() && f.spec_written() == o.spec_written()
                    && f.spec_num_entries() == o.spec_num_entries()
                &&& !o.spec_failed() && index_ok ==> {
                    &&& o.spec_pending_index_entry() ==> f.spec_index_entries() == o.spec_index_entries().push(
                        (ik, block_handle_bytes(o.spec_pending_handle())),
                    )
                    &&& !o.spec_pending_index_entry() ==> f.spec_index_entries() == o.spec_index_entries()
                }
                &&& !o.spec_failed() && index_ok && !entry_fits(o.spec_data_estimate(), key@.len(), value@.len())
                    ==> f.spec_failed() && f.spec_written() == o.spec_written() && f.spec_num_entries()
                    == o.spec_num_entries()
                &&& !o.spec_failed() && index_ok && entry_fits(o.spec_data_estimate(), key@.len(), value@.len())
                    ==> {
                    &&& f.spec_num_entries() == o.spec_num_entries() + 1
                    &&& f.spec_last_key() == key@
                    &&& (f.spec_data_entries() == added && !f.spec_failed() && f.spec_written()
                        == o.spec_written() && !f.spec_pending_index_entry()) || (f.spec_data_entries()
                        == Seq::<(Seq<u8>, Seq<u8>)>::empty() && f.spec_pending_index_entry() == !f.spec_failed()
                        && exists|c: Option<Seq<u8>>|
                        block_written(
                            o.spec_written(),
                            f.spec_written(),
                            false,
                            f.spec_failed(),
                            f.spec_pending_handle(),
                            block_bytes(build_state(added, o.spec_data_interval())),
                            c,
                            o.spec_options(),
                        ))
                }
            }),
    {
        if self.status.is_err() {
            return;
        }
        let ghost ik = index_key::<C>(self.last_key@, key@);
        let ghost enc = block_handle_bytes(self.pending_handle);
        if self.pending_index_entry {
            let sep = self.comparator.find_shortest_separator(self.last_key.as_slice(), key);
            match sep {
                Some(s) => {
                    self.last_key = s;
                },
                None => {},
            }
            let handle_encoding = self.pending_handle.encode_to();
            if !fits_block(self.index_block.current_size_estimate(), self.last_key.len(), handle_encoding.len()) {
                self.status = Err(DbError::InvalidArgument(String::from_str("index block too large")));
                return;
            }
            assert(self.last_key@ == ik);
            self.index_block.add(self.last_key.as_slice(), handle_encoding.as_slice());
            self.pending_index_entry = false;
            assert(self.spec_index_entries() == old(self).spec_index_entries().push((ik, enc)));
        }
        if !fits_block(self.data_block.current_size_estimate(), key.len(), value.len()) {
            self.status = Err(DbError::InvalidArgument(String::from_str("data block too large")));
            return;
        }
        match &mut self.filter_block {
            Some(f) => {
                f.add_key(key);
            },
            None => {},
        }
        self.last_key = to_vec(key);
        self.num_entries = self.num_entries + 1;
        self.data_block.add(key, value);
        let ghost s1 = *self;
        proof {
            assert(s1.spec_data_entries() == old(self).spec_data_entries().push((key@, value@)));
            assert(s1.spec_data_block() == block_bytes(
                build_state(old(self).spec_data_entries().push((key@, value@)), old(self).spec_data_interval()),
            ));
            assert(s1.spec_written() == old(self).spec_written());
            assert(!s1.spec_failed());
            assert(!s1.spec_data_block_empty());
            assert(!s1.spec_pending_index_entry());
        }
        let estimated_block_size = self.data_block.current_size_estimate();
        if estimated_block_size >= #[verifier::truncate] (self.options.block_size as usize) {
            self.flush();
        }
    }

    /// Stores the filter block, uncompressed, if there is one; the builder drops it.
    fn finish_filter_block(&mut self)
        requires
            old(self).wf(),
        ensures
            final(self).wf(),
            final(self).closed == old(self).closed,
            final(self).pending_index_entry == old(self).pending_index_entry,
            final(self).num_entries == old(self).num_entries,
            final(self).spec_filter() is None,
            final(self).same_index(old(self)),
            !old(self).spec_failed() ==> filter_stored(
                old(self).spec_filter(),
                old(self).spec_written(),
                final(self).spec_written(),
                final(self).spec_failed(),
            ),
            old(self).spec_filter() is None ==> *final(self) == *old(self),
            old(self).spec_filter() matches Some(f) ==> {
                let fb = finished_filter(f);
                if old(self).spec_offset() + fb.len() + BLOCK_TRAILER_SIZE <= u64::MAX {
                    &&& final(self).spec_written() == old(self).spec_written() + fb + trailer_bytes(
                        fb,
                        compression_type_code(CompressionType::NoCompression),
                    )
                    &&& final(self).spec_failed() == old(self).spec_failed()
                } else {
                    final(self).spec_written() == old(self).spec_written() && final(self).spec_failed()
                }
            },
    {
        let mut taken: Option<FilterBlockBuilder<P>> = None;
        std::mem::swap(&mut taken, &mut self.filter_block);
        match taken {
            Some(mut filter) => {
                let contents = filter.finish();
                self.write_raw_block(contents, CompressionType::NoCompression);
            },
            None => {},
        }
    }

    /// Stores an empty meta-index block and returns where it lies.
    fn finish_metaindex_block(&mut self) -> (r: BlockHandle)
        requires
            old(self).wf(),
        ensures
            final(self).wf(),
            final(self).same_blocks(old(self)),
            r.offset == old(self).spec_offset(),
            !final(self).spec_failed() ==> final(self).spec_offset() == r.offset + r.size + BLOCK_TRAILER_SIZE,
            exists|c: Option<Seq<u8>>|
                block_written(
                    old(self).spec_written(),
                    final(self).spec_written(),
                    old(self).spec_failed(),
                    final(self).spec_failed(),
                    r,
                    block_bytes(build_state(Seq::empty(), 0)),
                    c,
                    old(self).spec_options(),
                ),
    {
        let mut meta_index_block = BlockBuilder::new(self.options);
        proof {
            assert(build_state(Seq::<(Seq<u8>, Seq<u8>)>::empty(), meta_index_block.spec_interval())
                == build_state(Seq::<(Seq<u8>, Seq<u8>)>::empty(), 0));
        }
        let raw = meta_index_block.finish();
        let handle = self.write_block(raw);
        meta_index_block.reset();
        handle
    }

    /// Adds the last data block's index entry if due, then stores the index block and
    /// returns where it lies.
    fn finish_index_block(&mut self) -> (r: BlockHandle)
        requires
            old(self).wf(),
            !old(self).spec_failed(),
        ensures
            final(self).wf(),
            final(self).closed == old(self).closed,
            !final(self).spec_failed() ==> r.offset + r.size + BLOCK_TRAILER_SIZE == final(self).spec_offset(),
            !old(self).final_index_fits() ==> final(self).spec_written() == old(self).spec_written()
                && final(self).spec_failed(),
            old(self).final_index_fits() ==> r.offset == old(self).spec_offset() && exists|c: Option<Seq<u8>>|
                block_written(
                    old(self).spec_written(),
                    final(self).spec_written(),
                    false,
                    final(self).spec_failed(),
                    r,
                    old(self).final_index_block(),
                    c,
                    old(self).spec_options(),
                ),
    {
        if self.pending_index_entry {
            match self.comparator.find_short_successor(self.last_key.as_slice()) {
                Some(s) => {
                    self.last_key = s;
                },
                None => {},
            }
            let handle_encoding = self.pending_handle.encode_to();
            if !fits_block(self.index_block.current_size_estimate(), self.last_key.len(), handle_encoding.len()) {
                self.status = Err(DbError::InvalidArgument(String::from_str("index block too large")));
                return BlockHandle::new();
            }
            self.index_block.add(self.last_key.as_slice(), handle_encoding.as_slice());
            self.pending_index_entry = false;
        }
        proof {
            assert(self.spec_index_entries() == old(self).final_index_entries());
            assert(self.spec_index_interval() == old(self).spec_index_interval());
        }
        let raw = self.index_block.finish();
        assert(bytes_contents(raw) == old(self).final_index_block());
        self.index_block.reset();
        let ghost s = *self;
        assert(s.spec_written() == old(self).spec_written());
        assert(!s.spec_failed());
        assert(s.spec_options() == old(self).spec_options());
        assert(s.spec_offset() == old(self).spec_offset());
        self.write_block(raw)
    }

    /// Stores the last data block, the filter block, the meta-index block, the index
    /// block and the footer. Returns the builder's status.
    pub fn finish(&mut self) -> (r: &Result<(), DbError>)
        requires
            old(self).wf(),
            !old(self).spec_closed(),
        ensures
            final(self).wf(),
            final(self).spec_closed(),
            r is Err == final(self).spec_failed(),
            old(self).spec_failed() ==> final(self).spec_failed() && final(self).spec_written()
                == old(self).spec_written(),
            !old(self).spec_failed() ==> exists|m: Self|
                #[trigger] Self::flush_gives(*old(self), m) && Self::finished_from(
                    m,
                    final(self).spec_written(),
                    final(self).spec_failed(),
                ),
            !final(self).spec_failed() ==> exists|f: Footer|
                #![trigger footer_bytes(f)]
                final(self).spec_written().len() >= 48 && final(self).spec_written().subrange(
                    final(self).spec_written().len() - 48,
                    final(self).spec_written().len() as int,
                ) == footer_bytes(f) && f.index_handle.offset + f.index_handle.size + BLOCK_TRAILER_SIZE + 48
                    == final(self).spec_written().len(),
    {
        let ghost o = *self;
        self.flush();
        let ghost m = *self;
        self.closed = true;
        if self.status.is_ok() {
            self.finish_filter_block();
        }
        let ghost s2 = *self;
        let mut metaindex_block_handle = BlockHandle::new();
        if self.status.is_ok() {
            metaindex_block_handle = self.finish_metaindex_block();
        }
        let ghost s3 = *self;
        let mut index_block_handle = BlockHandle::new();
        if self.status.is_ok() {
            proof {
                assert(s3.same_index(&m));
                assert(s3.final_index_fits() == m.final_index_fits());
                assert(s3.final_index_block() == m.final_index_block());
            }
            index_block_handle = self.finish_index_block();
        }
        let ghost s4 = *self;
        if self.status.is_ok() {
            let mut footer = Footer::new();
            footer.set_index_handle(index_block_handle);
            footer.set_metaindex_handle(metaindex_block_handle);
            let footer_encoding = footer.encode_to();
            if self.offset > u64::MAX - 48 {
                self.status = Err(DbError::InvalidArgument(String::from_str("table too large")));
            } else {
                self.emit(footer_encoding.as_slice());
                proof {
                    assert(self.written@.subrange(self.written@.len() - 48, self.written@.len() as int)
                        =~= footer_bytes(footer));
                    assert(footer == (Footer { metaindex_handle: metaindex_block_handle, index_handle: index_block_handle }));
                }
            }
        }
        proof {
            if !o.spec_failed() {
                assert(Self::flush_gives(o, m));
                if !m.spec_failed() {
                    assert(filter_stored(m.spec_filter(), m.spec_written(), s2.spec_written(), s2.spec_failed()));
                    if !s2.spec_failed() {
                        let empty = block_bytes(build_state(Seq::<(Seq<u8>, Seq<u8>)>::empty(), 0));
                        let c = choose|c: Option<Seq<u8>>|
                            block_written(s2.spec_written(), s3.spec_written(), false, s3.spec_failed(), metaindex_block_handle, empty, c, m.spec_options());
                        assert(block_written(s2.spec_written(), s3.spec_written(), false, s3.spec_failed(), metaindex_block_handle, empty, c, m.spec_options()));
                        if !s3.spec_failed() && m.final_index_fits() {
                            let c2 = choose|c2: Option<Seq<u8>>|
                                block_written(s3.spec_written(), s4.spec_written(), false, s4.spec_failed(), index_block_handle, m.final_index_block(), c2, m.spec_options());
                            assert(block_written(s3.spec_written(), s4.spec_written(), false, s4.spec_failed(), index_block_handle, m.final_index_block(), c2, m.spec_options()));
                        }
                    }
                }
                assert(Self::finished_from(m, self.spec_written(), self.spec_failed()));
            }
        }
        &self.status
    }

    /// Whether `finish` was called.
    pub fn is_closed(&self) -> (r: bool)
        ensures
            r == self.spec_closed(),
    {
        self.closed
    }

    /// The builder's status.
    pub fn status(&self) -> (r: &Result<(), DbError>)
        ensures
            r is Err == self.spec_failed(),
    {
        &self.status
    }

    /// The number of bytes produced.
    pub fn file_size(&self) -> (r: u64)
        ensures
            r == self.spec_offset(),
    {
        self.offset
    }
}

} // verus!
