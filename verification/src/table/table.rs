//! Reading a sorted table: the footer and the index block are read when the table is
//! opened, data blocks are read from the file when a lookup needs them, and the filter,
//! when the table has one, is read on request.
use crate::db::error::{corruption, DbError};
use crate::db::iterator::DBIterator;
use crate::db::options::ReadOptions;
use crate::table::block::{
    accepts_all, block_layout_ok, fresh_pos, new_iterator_result, lemma_iterable_total, restart_array_start, restarts_in_bounds,
    seek_spec, stored_restarts, Block, BlockIterator,
};
use crate::table::filter_block::{reader_match, FilterBlockReader};
use crate::table::format::{
    footer_bytes, lemma_footer_roundtrip, read_block, spec_block_from_read, spec_decode_block_handle, spec_decode_footer, BlockContent,
    BlockHandle, Footer, RandomAccessFile, BLOCK_TRAILER_SIZE, ENCODED_LENGTH,
};
use crate::table::two_level_iterator::BlockFunction;
use crate::util::bytes::append_slice;
use crate::util::comparator::{BytewiseComparatorImpl, Comparator};
use crate::util::filter_policy::FilterPolicy;
use crate::util::options::Options;
use crate::util::bytes::bytes_equal;
use vstd::prelude::*;
use vstd::string::StringSliceAdditionalSpecFns;

verus! {

/// Receives the entry that a table lookup finds.
pub trait HanldeTableData: Sized {
    /// `after` is `before` having taken `key` and `value`. A handler that says no more
    /// admits any state.
    open spec fn took(before: Self, after: Self, key: Seq<u8>, value: Seq<u8>) -> bool {
        true
    }

    /// Takes the key and value found.
    fn handle(&mut self, key: &[u8], value: &[u8]) -> (r: Result<(), DbError>)
        ensures
            Self::took(*old(self), *final(self), key@, value@),
    ;
}

/// The entry of `table` that a lookup of `k` hands over may be `(key, value)`: the index
/// entry found for `k` holds a handle, reading the block it points at in the table's file
/// may give `data`, and the first entry of `data` at or after `k` is `(key, value)`.
pub open spec fn table_entry_for<F: RandomAccessFile, C: Comparator + Copy, P: FilterPolicy + Copy>(
    table: Table<F, C, P>,
    k: Seq<u8>,
    key: Seq<u8>,
    value: Seq<u8>,
) -> bool {
    block_seek_value::<C>(table.spec_index_data(), k) matches Some(hv) && (spec_decode_block_handle(hv) matches Ok(
        (h, n),
    ) && exists|data: Seq<u8>|
        #[trigger] file_block_gives(&table.spec_file(), h, data) && block_seek_entry::<BytewiseComparatorImpl>(
            data,
            k,
        ) == Some((key, value)))
}

/// A block can be walked without failing: when it is well laid out, its restart points
/// lie within it.
pub open spec fn block_usable(data: Seq<u8>) -> bool {
    block_layout_ok(data) ==> restarts_in_bounds(data)
}

/// The value of the first entry of block `data` at or after `key`, if there is one.
pub open spec fn block_seek_value<C: Comparator>(data: Seq<u8>, key: Seq<u8>) -> Option<Seq<u8>> {
    if block_layout_ok(data) && stored_restarts(data) > 0 {
        let restarts = restart_array_start(data);
        let p = seek_spec::<C>(data, restarts, stored_restarts(data) as nat, fresh_pos(data), key);
        if p.current < restarts {
            Some(data.subrange(p.value_start as int, p.value_end as int))
        } else {
            None
        }
    } else {
        None
    }
}

/// The key and value of the first entry of block `data` at or after `key`, if there is
/// one.
pub open spec fn block_seek_entry<C: Comparator>(data: Seq<u8>, key: Seq<u8>) -> Option<(Seq<u8>, Seq<u8>)> {
    if block_layout_ok(data) && stored_restarts(data) > 0 {
        let restarts = restart_array_start(data);
        let p = seek_spec::<C>(data, restarts, stored_restarts(data) as nat, fresh_pos(data), key);
        if p.current < restarts {
            Some((p.key, data.subrange(p.value_start as int, p.value_end as int)))
        } else {
            None
        }
    } else {
        None
    }
}

/// The meta-index key under which a table stores the filter of `policy`: "filter."
/// followed by the policy's name.
pub open spec fn filter_meta_key<P: FilterPolicy>(policy: P) -> Seq<u8> {
    "filter.".spec_bytes() + policy.name_bytes()
}

/// The meta-index block `meta` holds an entry for exactly `key`, whose value decodes to
/// a handle, and reading the block that handle points at in `file` may give `filter`.
pub open spec fn filter_found_in<F: RandomAccessFile>(file: &F, meta: Seq<u8>, key: Seq<u8>, filter: Seq<u8>) -> bool {
    match block_seek_entry::<BytewiseComparatorImpl>(meta, key) {
        Some((k, v)) => k == key && (spec_decode_block_handle(v) matches Ok((h, n)) && file_block_gives(
            file,
            h,
            filter,
        )),
        None => false,
    }
}

/// The base-2 logarithm of the offset range a filter block's filters cover, as its reader
/// reads it.
pub open spec fn filter_base_lg(fd: Seq<u8>) -> nat {
    if fd.len() < 5 {
        0
    } else {
        fd[fd.len() - 1] as nat
    }
}

/// The table's filter rules `k` out of the data block at `h`: there is a filter block and
/// a policy, and the filter for that block's offset says `k` is not there.
pub open spec fn filter_rules_out<P: FilterPolicy>(
    filter: Option<Seq<u8>>,
    policy: Option<P>,
    h: BlockHandle,
    k: Seq<u8>,
) -> bool {
    filter matches Some(fd) && (policy matches Some(p) && filter_base_lg(fd) < usize::BITS && !reader_match(
        p,
        fd,
        h.offset,
        k,
    ))
}

/// A footer with both handles zero, as `Footer::new` makes it.
pub open spec fn empty_footer() -> Footer {
    Footer { metaindex_handle: BlockHandle::new_spec(), index_handle: BlockHandle::new_spec() }
}

/// `footer` is a table footer whose metaindex handle is `meta`, and reading the index
/// block it points at may give `index_data`.
#[verifier::opaque]
pub open spec fn footer_opens(footer: Seq<u8>, meta: BlockHandle, index_data: Seq<u8>) -> bool {
    footer.len() == ENCODED_LENGTH && match spec_decode_footer(footer, empty_footer()) {
        Ok(f) => f.metaindex_handle == meta && block_read_gives(f.index_handle.size as nat, index_data),
        Err(_) => false,
    }
}

/// Reading the block that `handle` points at in `file` may give `contents`: the file
/// may give some buffer of the block's length and trailer from the handle's offset on, and
/// that buffer decodes to `contents`.
pub open spec fn file_block_gives<F: RandomAccessFile>(file: &F, handle: BlockHandle, contents: Seq<u8>) -> bool {
    exists|b: Seq<u8>|
        #[trigger] file.reads(handle.offset, (handle.size + BLOCK_TRAILER_SIZE) as usize, b) && b.len()
            == handle.size + BLOCK_TRAILER_SIZE && spec_block_from_read(b, b.len(), handle.size as nat)
            == Ok::<Seq<u8>, Option<Seq<char>>>(contents)
}

/// The contents that reading a block of `size` bytes may give: the decoded contents of
/// some buffer of the block's length and trailer.
pub open spec fn block_read_gives(size: nat, contents: Seq<u8>) -> bool {
    exists|b: Seq<u8>|
        b.len() == size + BLOCK_TRAILER_SIZE && #[trigger] spec_block_from_read(b, b.len(), size)
            == Ok::<Seq<u8>, Option<Seq<char>>>(contents)
}

/// The block made of `contents`, refused as corrupt when it is too long or when its
/// restart points do not lie within it.
fn usable_block(contents: BlockContent) -> (r: Result<Block, DbError>)
    ensures
        match r {
            Ok(b) => b.spec_data() == contents.data@ && block_usable(b.spec_data()),
            Err(e) => e matches DbError::Corruption(m) && m@ == "bad block contents"@,
        },
{
    if contents.data.len() > 0xffff_ffff || contents.data.len() > 0x7fff_ffff {
        return Err(corruption("bad block contents"));
    }
    let block = Block::new(contents);
    if block.size() != 0 && !block.restarts_within() {
        return Err(corruption("bad block contents"));
    }
    Ok(block)
}

/// The value of the entry of the meta-index block `meta` whose key is exactly `key`,
/// found by seeking `key`.
fn meta_value(meta: &Block, key: &[u8]) -> (r: Option<Vec<u8>>)
    requires
        block_usable(meta.spec_data()),
    ensures
        match r {
            Some(v) => block_seek_entry::<BytewiseComparatorImpl>(meta.spec_data(), key@) == Some((key@, v@)),
            None => !(block_seek_entry::<BytewiseComparatorImpl>(meta.spec_data(), key@) matches Some(
                (k, _),
            ) && k == key@),
        },
{
    proof {
        if block_layout_ok(meta.spec_data()) {
            lemma_iterable_total::<BytewiseComparatorImpl>(meta.spec_data());
        }
    }
    let mut iter = meta.new_iterator(BytewiseComparatorImpl);
    iter.seek(key);
    if iter.valid() && bytes_equal(iter.key(), key) {
        Some(crate::util::bytes::to_vec(iter.value()))
    } else {
        None
    }
}

/// A sorted table being read from `file`.
pub struct Table<F: RandomAccessFile, C: Comparator, P: FilterPolicy> {
    options: Options,
    comparator: C,
    policy: Option<P>,
    status: Result<(), DbError>,
    file: F,
    cache_id: u64,
    filter_data: Option<Vec<u8>>,
    metaindex_handle: BlockHandle,
    index_block: Block,
}

impl<F: RandomAccessFile, C: Comparator + Copy, P: FilterPolicy + Copy> Table<F, C, P> {
    /// The options the table was opened with.
    pub closed spec fn spec_options(&self) -> Options {
        self.options
    }

    /// The filter policy, if any.
    pub closed spec fn spec_policy(&self) -> Option<P> {
        self.policy
    }

    /// The filter block's bytes, once read.
    pub closed spec fn spec_filter_data(&self) -> Option<Seq<u8>> {
        match self.filter_data {
            Some(d) => Some(d@),
            None => None,
        }
    }

    /// Where the metaindex block lies.
    pub closed spec fn spec_metaindex_handle(&self) -> BlockHandle {
        self.metaindex_handle
    }

    /// The file the table is read from.
    pub closed spec fn spec_file(&self) -> F {
        self.file
    }

    /// The index block's bytes.
    pub closed spec fn spec_index_data(&self) -> Seq<u8> {
        self.index_block.spec_data()
    }

    /// The table's invariant: its comparator accepts every key, reads never ask for
    /// checksums, and the index block can be walked.
    pub closed spec fn wf(&self) -> bool {
        &&& accepts_all::<C>()
        &&& !self.options.paranoid_checks
        &&& block_usable(self.index_block.spec_data())
    }

    #[verifier::rlimit(50)]
    /// Opens the table of `size` bytes in `file`: reads the footer from the file's last
    /// bytes, then the index block it points at.
    pub fn new(options: &Options, comparator: C, policy: Option<P>, file: F, size: u64) -> (r:
        Result<Self, DbError>)
        requires
            !options.paranoid_checks,
            accepts_all::<C>(),
        ensures
            size < ENCODED_LENGTH ==> (r matches Err(DbError::Corruption(m)) && m@
                == "file is too short to be an sstable"@),
            r matches Ok(t) ==> {
                &&& t.wf()
                &&& t.spec_options() == *options
                &&& t.spec_policy() == policy
                &&& t.spec_filter_data() is None
                &&& exists|footer: Seq<u8>|
                    #[trigger] footer_opens(footer, t.spec_metaindex_handle(), t.spec_index_data())
                &&& t.spec_file() == file
                &&& exists|got: Seq<u8>|
                    #[trigger] file.reads((size - ENCODED_LENGTH) as u64, ENCODED_LENGTH as usize, got)
                        && (spec_decode_footer(footer_padded(got), empty_footer()) matches Ok(f)
                        && f.metaindex_handle == t.spec_metaindex_handle() && file_block_gives(
                        &file,
                        f.index_handle,
                        t.spec_index_data(),
                    ))
            },
    {
        if size < ENCODED_LENGTH as u64 {
            return Err(corruption("file is too short to be an sstable"));
        }
        let (buf, footer) = match read_footer(&file, size) {
            Ok(x) => x,
            Err(e) => return Err(e),
        };
        let opt = ReadOptions { verify_checksums: options.paranoid_checks, fill_cache: false };
        let index_block = match read_usable_block(&file, &opt, footer.index_handle()) {
            Ok(b) => b,
            Err(e) => return Err(e),
        };
        let table = Table {
            options: *options,
            comparator,
            policy,
            status: Ok(()),
            file,
            cache_id: 0,
            filter_data: None,
            metaindex_handle: *footer.metaindex_handle(),
            index_block,
        };
        proof {
            assert(footer_opens(buf@, table.spec_metaindex_handle(), table.spec_index_data())) by {
                reveal(footer_opens);
            }
            assert(exists|footer: Seq<u8>|
                #[trigger] footer_opens(footer, table.spec_metaindex_handle(), table.spec_index_data()));
        }
        Ok(table)
    }

    /// Looks up the table's filter in the metaindex block, under the key "filter."
    /// followed by the policy's name, and reads it when found. Without a policy, or when
    /// the metaindex block cannot be read, nothing changes.
    pub fn read_meta(&mut self, footer: &Footer)
        requires
            old(self).wf(),
        ensures
            final(self).wf(),
            final(self).spec_options() == old(self).spec_options(),
            final(self).spec_policy() == old(self).spec_policy(),
            final(self).spec_metaindex_handle() == old(self).spec_metaindex_handle(),
            final(self).spec_index_data() == old(self).spec_index_data(),
            old(self).spec_policy() is None ==> final(self).spec_filter_data()
                == old(self).spec_filter_data(),
            final(self).spec_file() == old(self).spec_file(),
            final(self).spec_filter_data() == old(self).spec_filter_data() || (old(self).spec_policy() matches Some(p)
                && (final(self).spec_filter_data() matches Some(d) && exists|meta: Seq<u8>|
                #[trigger] file_block_gives(&old(self).spec_file(), footer.metaindex_handle, meta) && filter_found_in(
                &old(self).spec_file(),
                meta,
                filter_meta_key(p),
                d,
            ))),
    {
        let policy = match self.policy {
            Some(p) => p,
            None => return,
        };
        let opt = ReadOptions { verify_checksums: self.options.paranoid_checks, fill_cache: false };
        let meta_handle = *footer.metaindex_handle();
        if meta_handle.size > (usize::MAX - BLOCK_TRAILER_SIZE) as u64 {
            return;
        }
        let contents = match read_block(&self.file, &opt, &meta_handle) {
            Ok(c) => c,
            Err(_) => return,
        };
        let meta = match usable_block(contents) {
            Ok(b) => b,
            Err(_) => return,
        };
        let ghost meta_data = meta.spec_data();
        assert(file_block_gives(&self.spec_file(), meta_handle, meta_data));
        let mut key: Vec<u8> = Vec::new();
        append_slice(&mut key, "filter.".as_bytes());
        append_slice(&mut key, policy.name().as_bytes());
        assert(key@ == filter_meta_key(policy));
        match meta_value(&meta, key.as_slice()) {
            Some(value) => {
                self.read_filter(value.as_slice());
            },
            None => {},
        }
    }

    /// Reads the filter block that `filter_handle_value` points at and keeps its bytes;
    /// a handle that does not decode, or a block that cannot be read, changes nothing.
    pub fn read_filter(&mut self, filter_handle_value: &[u8])
        requires
            old(self).wf(),
        ensures
            final(self).wf(),
            final(self).spec_options() == old(self).spec_options(),
            final(self).spec_policy() == old(self).spec_policy(),
            final(self).spec_metaindex_handle() == old(self).spec_metaindex_handle(),
            final(self).spec_index_data() == old(self).spec_index_data(),
            spec_decode_block_handle(filter_handle_value@) is Err ==> final(self).spec_filter_data()
                == old(self).spec_filter_data(),
            final(self).spec_file() == old(self).spec_file(),
            final(self).spec_filter_data() == old(self).spec_filter_data() || (
            spec_decode_block_handle(filter_handle_value@) matches Ok((h, n))
                && final(self).spec_filter_data() matches Some(d) && file_block_gives(
                &old(self).spec_file(),
                h,
                d,
            )),
    {
        let mut filter_handle = BlockHandle::new();
        if filter_handle.decode_from(filter_handle_value).is_err() {
            return;
        }
        let opt = ReadOptions { verify_checksums: self.options.paranoid_checks, fill_cache: false };
        if filter_handle.size > (usize::MAX - BLOCK_TRAILER_SIZE) as u64 {
            return;
        }
        match read_block(&self.file, &opt, &filter_handle) {
            Ok(block) => {
                self.filter_data = Some(block.data);
            },
            Err(_) => {},
        }
    }

    /// Looks `k` up: finds the data block that the index points `k` at, and hands the
    /// block's first entry at or after `k`, if any, to `handle`. Where the filter says the
    /// block may hold `k`, the block is not read.
    pub fn internal_get<H: HanldeTableData>(&mut self, options: &ReadOptions, k: &[u8], handle: &mut H) -> (r:
        Result<(), DbError>)
        requires
            old(self).wf(),
            !options.verify_checksums,
        ensures
            *final(self) == *old(self),
            *final(handle) == *old(handle) || exists|key: Seq<u8>, value: Seq<u8>|
                #[trigger] H::took(*old(handle), *final(handle), key, value) && table_entry_for(
                    *old(self),
                    k@,
                    key,
                    value,
                ),
            !block_layout_ok(old(self).spec_index_data()) ==> (r matches Err(DbError::Corruption(m))
                && m@ == "bad block contents"@),
            block_layout_ok(old(self).spec_index_data()) && block_seek_value::<C>(
                old(self).spec_index_data(),
                k@,
            ) is None ==> r is Ok,
            r is Ok ==> match block_seek_value::<C>(old(self).spec_index_data(), k@) {
                Some(hv) => match spec_decode_block_handle(hv) {
                    Ok((h, n)) => filter_rules_out(old(self).spec_filter_data(), old(self).spec_policy(), h, k@)
                        || exists|data: Seq<u8>|
                        #[trigger] file_block_gives(&old(self).spec_file(), h, data) && match block_seek_entry::<
                            BytewiseComparatorImpl,
                        >(data, k@) {
                            None => *final(handle) == *old(handle),
                            Some((key, value)) => H::took(*old(handle), *final(handle), key, value),
                        },
                    Err(_) => true,
                },
                None => *final(handle) == *old(handle),
            },
    {
        proof {
            if block_layout_ok(self.index_block.spec_data()) {
                lemma_iterable_total::<C>(self.index_block.spec_data());
            }
        }
        let mut iiter = self.index_block.new_iterator(self.comparator);
        let ghost fresh = iiter;
        iiter.seek(k);
        if iiter.valid() {
            let handle_value = crate::util::bytes::to_vec(iiter.value());
            let mut not_found = false;
            if let Some(filter_data) = &self.filter_data {
                if let Some(policy) = self.policy {
                    let filter = FilterBlockReader::new(policy, filter_data.as_slice());
                    let mut bh = BlockHandle::new();
                    if bh.decode_from(handle_value.as_slice()).is_ok() && filter.base_lg() < usize::BITS as usize
                        && !filter.key_may_match(bh.offset, k) {
                        not_found = true;
                    }
                }
            }
            if !not_found {
                let mut block_iter = match self.block_iterator(options, handle_value.as_slice()) {
                    Ok(it) => it,
                    Err(e) => return Err(e),
                };
                let ghost h = spec_decode_block_handle(handle_value@)->Ok_0.0;
                let ghost data = choose|data: Seq<u8>|
                    #[trigger] file_block_gives(&self.spec_file(), h, data) && new_iterator_result(data, block_iter);
                block_iter.seek(k);
                if block_iter.valid() {
                    proof {
                        assert(table_entry_for(*self, k@, block_iter.current_key(), block_iter.current_value()));
                        assert(block_seek_entry::<BytewiseComparatorImpl>(data, k@) == Some(
                            (block_iter.current_key(), block_iter.current_value()),
                        ));
                    }
                    match handle.handle(block_iter.key(), block_iter.value()) {
                        Ok(()) => {},
                        Err(e) => return Err(e),
                    }
                } else {
                    proof {
                        assert(block_seek_entry::<BytewiseComparatorImpl>(data, k@) is None);
                    }
                }
            }
        }
        iiter.status()
    }

    /// Where in the file the data for `key` begins, roughly: the offset of the block that
    /// the index points `key` at, or, past the last block or when the index entry does not
    /// decode, the offset of the metaindex block.
    pub fn approximate_offset_of(&self, key: &[u8]) -> (r: u64)
        requires
            self.wf(),
        ensures
            r == match block_seek_value::<C>(self.spec_index_data(), key@) {
                Some(v) => match spec_decode_block_handle(v) {
                    Ok((h, n)) => h.offset,
                    Err(_) => self.spec_metaindex_handle().offset,
                },
                None => self.spec_metaindex_handle().offset,
            },
    {
        proof {
            if block_layout_ok(self.index_block.spec_data()) {
                lemma_iterable_total::<C>(self.index_block.spec_data());
            }
        }
        let mut index_iter = self.index_block.new_iterator(self.comparator);
        index_iter.seek(key);
        if index_iter.valid() {
            let input = index_iter.value();
            let mut handle = BlockHandle::new();
            if handle.decode_from(input).is_ok() {
                handle.offset
            } else {
                self.metaindex_handle.offset
            }
        } else {
            self.metaindex_handle.offset
        }
    }
}

impl<F: RandomAccessFile, C: Comparator + Copy, P: FilterPolicy + Copy> BlockFunction for Table<F, C, P> {
    type Iter = BlockIterator<BytewiseComparatorImpl>;

    open spec fn target_ok(&self, target: Seq<u8>) -> bool {
        true
    }

    /// Reading a block from the file may succeed or fail.
    open spec fn opened(&self, index_value: Seq<u8>, r: Option<BlockIterator<BytewiseComparatorImpl>>) -> bool {
        true
    }

    /// An iterator over the data block that `index_value` points at, read from the file.
    fn block_iterator(&self, options: &ReadOptions, index_value: &[u8]) -> (r: Result<
        BlockIterator<BytewiseComparatorImpl>,
        DbError,
    >)
        ensures
            match spec_decode_block_handle(index_value@) {
                Err(msg) => r matches Err(DbError::Corruption(m)) && m@ == msg,
                Ok((h, n)) => {
                    &&& h.size + BLOCK_TRAILER_SIZE > usize::MAX ==> (r matches Err(
                        DbError::Corruption(m),
                    ) && m@ == "truncated block read"@)
                    &&& r matches Ok(it) ==> exists|data: Seq<u8>|
                        #[trigger] block_read_gives(h.size as nat, data) && block_usable(data)
                            && new_iterator_result(data, it)
                    &&& r matches Ok(it) ==> exists|data: Seq<u8>|
                        #[trigger] file_block_gives(&self.spec_file(), h, data) && new_iterator_result(data, it)
                },
            },
    {
        let mut handle = BlockHandle::new();
        match handle.decode_from(index_value) {
            Ok(_) => {},
            Err(e) => return Err(e),
        }
        if handle.size > (usize::MAX - BLOCK_TRAILER_SIZE) as u64 {
            return Err(corruption("truncated block read"));
        }
        let contents = match read_block(&self.file, options, &handle) {
            Ok(c) => c,
            Err(e) => return Err(e),
        };
        let block = match usable_block(contents) {
            Ok(b) => b,
            Err(e) => return Err(e),
        };
        let ghost data = block.spec_data();
        proof {
            assert(block_read_gives(handle.size as nat, data));
            assert(file_block_gives(&self.spec_file(), handle, data));
            if block_layout_ok(block.spec_data()) {
                lemma_iterable_total::<BytewiseComparatorImpl>(block.spec_data());
            }
        }
        Ok(block.new_iterator_into(BytewiseComparatorImpl))
    }
}

/// Reads the footer from the last bytes of the `size` bytes of `file` and decodes it.
#[verifier::rlimit(40)]
fn read_footer<F: RandomAccessFile>(file: &F, size: u64) -> (r: Result<(Vec<u8>, Footer), DbError>)
    requires
        size >= ENCODED_LENGTH,
    ensures
        r matches Ok((buf, f)) ==> buf@.len() == ENCODED_LENGTH && spec_decode_footer(
            buf@,
            empty_footer(),
        ) == Ok::<Footer, (Seq<char>, Footer)>(f),
        r matches Ok((buf, f)) ==> exists|got: Seq<u8>|
            #[trigger] file.reads((size - ENCODED_LENGTH) as u64, ENCODED_LENGTH as usize, got) && buf@
                == footer_padded(got),
{
    let got = match file.read_at(size - ENCODED_LENGTH as u64, ENCODED_LENGTH) {
        Ok(b) => b,
        Err(e) => return Err(e),
    };
    let ghost g = got@;
    assert(file.reads((size - ENCODED_LENGTH) as u64, ENCODED_LENGTH as usize, g));
    let r = footer_from_read(got);
    proof {
        match &r {
            Ok(p) => {
                assert(p.0@ == footer_padded(g));
            },
            Err(_) => {},
        }
    }
    r
}

/// The footer's bytes made of what a read gave: cut or padded with zeros to the footer's
/// length.
pub open spec fn footer_padded(got: Seq<u8>) -> Seq<u8> {
    Seq::new(ENCODED_LENGTH as nat, |i: int| if i < got.len() { got[i] } else { 0u8 })
}

/// A table that ends with the footer of `f` opens to that footer: reading its last
/// footer-length bytes and decoding them as `footer_from_read` does gives `f` back.
#[verifier::rlimit(30)]
pub proof fn lemma_table_footer_reads_back(body: Seq<u8>, f: Footer)
    ensures
        ({
            let t = body + footer_bytes(f);
            spec_decode_footer(
                footer_padded(t.subrange(t.len() - ENCODED_LENGTH, t.len() as int)),
                empty_footer(),
            ) == Ok::<Footer, (Seq<char>, Footer)>(f)
        }),
{
    let fb = footer_bytes(f);
    lemma_footer_roundtrip(f, empty_footer());
    let t = body + fb;
    let last = t.subrange(t.len() - ENCODED_LENGTH, t.len() as int);
    assert(last =~= fb);
    assert(footer_padded(last) =~= fb);
}

/// Decodes the footer from the bytes `got` that were read for it, padded as
/// `footer_padded` says; gives the padded bytes with the footer.
pub fn footer_from_read(got: Vec<u8>) -> (r: Result<(Vec<u8>, Footer), DbError>)
    ensures
        match spec_decode_footer(footer_padded(got@), empty_footer()) {
            Ok(f) => r matches Ok((buf, g)) && buf@ == footer_padded(got@) && g == f,
            Err((msg, _)) => r matches Err(DbError::Corruption(m)) && m@ == msg,
        },
{
    let ghost g = got@;
    let buf = footer_buffer(got);
    assert(buf@ =~= footer_padded(g));
    let mut footer = Footer::new();
    match footer.decode_from(buf.as_slice()) {
        Ok(()) => Ok((buf, footer)),
        Err(e) => Err(e),
    }
}

/// Reads the block that `handle` points at in `file` and checks that it can be walked.
fn read_usable_block<F: RandomAccessFile>(file: &F, options: &ReadOptions, handle: &BlockHandle) -> (r:
    Result<Block, DbError>)
    requires
        !options.verify_checksums,
    ensures
        r matches Ok(b) ==> block_usable(b.spec_data()) && block_read_gives(
            handle.size as nat,
            b.spec_data(),
        ),
        handle.size + BLOCK_TRAILER_SIZE > usize::MAX ==> (r matches Err(DbError::Corruption(m)) && m@
            == "truncated block read"@),
        r matches Ok(blk) ==> file_block_gives(file, *handle, blk.spec_data()),
{
    if handle.size > (usize::MAX - BLOCK_TRAILER_SIZE) as u64 {
        return Err(corruption("truncated block read"));
    }
    let contents = match read_block(file, options, handle) {
        Ok(c) => c,
        Err(e) => return Err(e),
    };
    usable_block(contents)
}

/// The footer bytes: what was read, cut or padded with zeros to the footer's length.
fn footer_buffer(got: Vec<u8>) -> (r: Vec<u8>)
    ensures
        r@.len() == ENCODED_LENGTH,
        forall|i: int| 0 <= i < ENCODED_LENGTH ==> #[trigger] r@[i] == if i < got@.len() {
            got@[i]
        } else {
            0u8
        },
{
    let mut buf: Vec<u8> = Vec::new();
    let mut i: usize = 0;
    while i < ENCODED_LENGTH
        invariant
            i <= ENCODED_LENGTH,
            buf@.len() == i,
            forall|j: int| 0 <= j < i ==> #[trigger] buf@[j] == if j < got@.len() {
                got@[j]
            } else {
                0u8
            },
        decreases ENCODED_LENGTH - i,
    {
        if i < got.len() {
            buf.push(got[i]);
        } else {
            buf.push(0);
        }
        i = i + 1;
    }
    buf
}

} // verus!
