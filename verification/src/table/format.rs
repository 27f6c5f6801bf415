//! Block handles, the table footer, and the checks made on a block read from a table.
use crate::db::error::{corruption, DbError};
use crate::db::options::ReadOptions;
use crate::table::compression::{
    snappy_decompress, snappy_frame_decoded, zstd_decompress, zstd_decoded,
};
use crate::util::coding::{
    decode_fixed32, fixed32_bytes, fixed32_value, get_varint64, lemma_fixed32_roundtrip,
    lemma_varint64_roundtrip, put_fixed32, put_varint64, spec_get_varint64, varint_bytes,
};
use crate::util::options::{compression_type_code, CompressionType};
use crate::util::bytes::to_vec;
use vstd::prelude::*;

verus! {

/// The bytes of a block as read from a table.
pub struct BlockContent {
    pub data: Vec<u8>,
    pub cachable: bool,
    pub heap_allocated: bool,
}

impl BlockContent {
    pub fn new(data: Vec<u8>, cachable: bool, heap_allocated: bool) -> (r: Self)
        ensures
            r.data@ == data@,
            r.cachable == cachable,
            r.heap_allocated == heap_allocated,
    {
        BlockContent { data, cachable, heap_allocated }
    }
}

/// The extent of a table file that holds a data block or a meta block.
#[derive(Debug, Clone, Copy, PartialEq, Eq, Structural)]
pub struct BlockHandle {
    pub offset: u64,
    pub size: u64,
}

/// The longest encoding of a block handle: two varint64s.
pub const MAX_ENCODED_LENGTH: usize = 20;

/// The length of an encoded footer: two padded block handles and the magic number.
pub const ENCODED_LENGTH: usize = 48;

/// The number that ends every table file.
pub const TABLE_MAGIC_NUMBER: u64 = 0xdb4775248b80fb57;

/// Each block is followed by a one-byte type and a 32-bit checksum.
pub const BLOCK_TRAILER_SIZE: usize = 5;

/// The encoding of a block handle: offset then size, as varint64s.
pub open spec fn block_handle_bytes(h: BlockHandle) -> Seq<u8> {
    varint_bytes(h.offset as nat) + varint_bytes(h.size as nat)
}

/// What decoding a block handle at the front of `data` gives: the handle and the bytes
/// consumed, or the text of the corruption found.
#[verifier::opaque]
pub open spec fn spec_decode_block_handle(data: Seq<u8>) -> Result<(BlockHandle, nat), Seq<char>> {
    match spec_get_varint64(data) {
        None => Err("bad block handle (offset)"@),
        Some((s1, offset)) => match spec_get_varint64(data.subrange(s1 as int, data.len() as int)) {
            None => Err("bad block handle (size)"@),
            Some((s2, size)) => Ok((BlockHandle { offset, size }, s1 + s2)),
        },
    }
}

impl BlockHandle {
    pub fn new() -> (r: Self)
        ensures
            r == (BlockHandle { offset: 0, size: 0 }),
    {
        BlockHandle { offset: 0, size: 0 }
    }

    pub fn encode_to(&self) -> (r: Vec<u8>)
        ensures
            r@ == block_handle_bytes(*self),
            r@.len() <= MAX_ENCODED_LENGTH,
    {
        let mut result = put_varint64(self.offset);
        let mut size = put_varint64(self.size);
        result.append(&mut size);
        result
    }

    /// Decodes a handle from the front of `data` into `self`, returning the bytes
    /// consumed. On failure `self` is left unchanged.
    pub fn decode_from(&mut self, data: &[u8]) -> (r: Result<usize, DbError>)
        ensures
            match spec_decode_block_handle(data@) {
                Ok((h, n)) => r matches Ok(m) && m == n && *final(self) == h,
                Err(msg) => r matches Err(DbError::Corruption(m)) && m@ == msg && *final(self)
                    == *old(self),
            },
            r matches Ok(m) ==> m <= data@.len(),
    {
        reveal(spec_decode_block_handle);
        let (s1, offset) = match get_varint64(data) {
            Some(x) => x,
            None => return Err(corruption("bad block handle (offset)")),
        };
        proof {
            crate::util::coding::lemma_varint_size_bounds(data@, 10);
        }
        let remaining = &data[s1..data.len()];
        let (s2, size) = match get_varint64(remaining) {
            Some(x) => x,
            None => return Err(corruption("bad block handle (size)")),
        };
        proof {
            crate::util::coding::lemma_varint_size_bounds(remaining@, 10);
        }
        self.offset = offset;
        self.size = size;
        proof {
            crate::util::coding::lemma_varint_size_bounds(remaining@, 10);
        }
        Ok(s1 + s2)
    }

    pub fn offset(&self) -> (r: u64)
        ensures
            r == self.offset,
    {
        self.offset
    }

    pub fn set_offset(&mut self, offset: u64)
        ensures
            *final(self) == (BlockHandle { offset, ..*old(self) }),
    {
        self.offset = offset;
    }

    pub fn size(&self) -> (r: u64)
        ensures
            r == self.size,
    {
        self.size
    }

    pub fn set_size(&mut self, size: u64)
        ensures
            *final(self) == (BlockHandle { size, ..*old(self) }),
    {
        self.size = size;
    }
}

/// Decoding an encoded block handle gives it back, with the bytes consumed, whatever
/// follows it.
pub proof fn lemma_block_handle_roundtrip(h: BlockHandle, rest: Seq<u8>)
    ensures
        spec_decode_block_handle(block_handle_bytes(h) + rest) == Ok::<(BlockHandle, nat), Seq<char>>(
            (h, block_handle_bytes(h).len()),
        ),
{
    reveal(spec_decode_block_handle);
    let a = varint_bytes(h.offset as nat);
    let b = varint_bytes(h.size as nat);
    let s = block_handle_bytes(h) + rest;
    assert(s =~= a + (b + rest));
    lemma_varint64_roundtrip(h.offset, b + rest);
    assert(s.subrange(a.len() as int, s.len() as int) =~= b + rest);
    lemma_varint64_roundtrip(h.size, rest);
}

/// The fixed information at the end of every table file.
#[derive(Debug, Clone, Copy, PartialEq, Eq, Structural)]
pub struct Footer {
    pub metaindex_handle: BlockHandle,
    pub index_handle: BlockHandle,
}

/// The encoding of a footer: the two handles, zero-padded to 40 bytes, then the magic
/// number as two fixed 32-bit halves, low half first.
pub open spec fn footer_bytes(f: Footer) -> Seq<u8> {
    let handles = block_handle_bytes(f.metaindex_handle) + block_handle_bytes(f.index_handle);
    handles + Seq::new((40 - handles.len()) as nat, |_i: int| 0u8) + fixed32_bytes(
        (TABLE_MAGIC_NUMBER % 0x1_0000_0000) as u32,
    ) + fixed32_bytes((TABLE_MAGIC_NUMBER / 0x1_0000_0000) as u32)
}

/// The magic number found at bytes 40..48 of `data`.
pub open spec fn footer_magic(data: Seq<u8>) -> int {
    fixed32_value(data.subrange(40, 48)) + 0x1_0000_0000 * fixed32_value(data.subrange(44, 48))
}

/// What decoding a footer from `data` gives: the footer, or the text of the corruption
/// found, with the metaindex handle that was decoded before the failure, if any.
pub open spec fn spec_decode_footer(data: Seq<u8>, old: Footer) -> Result<Footer, (Seq<char>, Footer)> {
    if data.len() < ENCODED_LENGTH {
        Err(("not an sstable (footer too short)"@, old))
    } else if footer_magic(data) != TABLE_MAGIC_NUMBER {
        Err(("not an sstable (bad magic number)"@, old))
    } else {
        match spec_decode_block_handle(data) {
            Err(msg) => Err((msg, old)),
            Ok((meta, n)) => match spec_decode_block_handle(data.subrange(n as int, data.len() as int)) {
                Err(msg) => Err((msg, Footer { metaindex_handle: meta, ..old })),
                Ok((index, _)) => Ok(Footer { metaindex_handle: meta, index_handle: index }),
            },
        }
    }
}

/// The magic number stored at bytes 40..48 of a footer.
fn read_magic(data: &[u8]) -> (r: u64)
    requires
        data@.len() >= ENCODED_LENGTH,
    ensures
        r == footer_magic(data@),
{
    let magic_lo = decode_fixed32(&data[40..48]);
    let magic_hi = decode_fixed32(&data[44..48]);
    let magic = (magic_lo as u64) | ((magic_hi as u64) << 32);
    proof {
        let (l, h) = (magic_lo as u64, magic_hi as u64);
        assert(magic == l + 0x1_0000_0000 * h) by (bit_vector)
            requires
                l < 0x1_0000_0000,
                h < 0x1_0000_0000,
                magic == l | (h << 32),
        ;
    }
    magic
}

impl Footer {
    pub fn new() -> (r: Self)
        ensures
            r.metaindex_handle == BlockHandle::new_spec(),
            r.index_handle == BlockHandle::new_spec(),
    {
        Footer { metaindex_handle: BlockHandle::new(), index_handle: BlockHandle::new() }
    }

    pub fn metaindex_handle(&self) -> (r: &BlockHandle)
        ensures
            *r == self.metaindex_handle,
    {
        &self.metaindex_handle
    }

    pub fn set_metaindex_handle(&mut self, handle: BlockHandle)
        ensures
            *final(self) == (Footer { metaindex_handle: handle, ..*old(self) }),
    {
        self.metaindex_handle = handle;
    }

    pub fn index_handle(&self) -> (r: &BlockHandle)
        ensures
            *r == self.index_handle,
    {
        &self.index_handle
    }

    pub fn set_index_handle(&mut self, handle: BlockHandle)
        ensures
            *final(self) == (Footer { index_handle: handle, ..*old(self) }),
    {
        self.index_handle = handle;
    }

    pub fn encode_to(&self) -> (r: Vec<u8>)
        ensures
            r@ == footer_bytes(*self),
            r@.len() == ENCODED_LENGTH,
    {
        let mut result = self.metaindex_handle.encode_to();
        let mut index = self.index_handle.encode_to();
        result.append(&mut index);
        let ghost handles = result@;
        result.resize(MAX_ENCODED_LENGTH * 2, 0);
        let mut lo = put_fixed32((TABLE_MAGIC_NUMBER & 0xffffffff) as u32);
        let mut hi = put_fixed32((TABLE_MAGIC_NUMBER >> 32) as u32);
        assert((TABLE_MAGIC_NUMBER & 0xffffffff) as u32 == (TABLE_MAGIC_NUMBER % 0x1_0000_0000) as u32)
            by (bit_vector);
        assert((TABLE_MAGIC_NUMBER >> 32) as u32 == (TABLE_MAGIC_NUMBER / 0x1_0000_0000) as u32)
            by (bit_vector);
        result.append(&mut lo);
        result.append(&mut hi);
        proof {
            let pad = Seq::new((40 - handles.len()) as nat, |_i: int| 0u8);
            assert(result@.subrange(0, 40) =~= handles + pad);
            assert(result@ =~= footer_bytes(*self));
        }
        result
    }

    /// Decodes a footer from `data` into `self`.
    #[verifier::rlimit(60)]
    pub fn decode_from(&mut self, data: &[u8]) -> (r: Result<(), DbError>)
        ensures
            match spec_decode_footer(data@, *old(self)) {
                Ok(f) => r is Ok && *final(self) == f,
                Err((msg, f)) => r matches Err(DbError::Corruption(m)) && m@ == msg && *final(self)
                    == f,
            },
    {
        if data.len() < ENCODED_LENGTH {
            return Err(corruption("not an sstable (footer too short)"));
        }
        let magic = read_magic(data);
        if magic != TABLE_MAGIC_NUMBER {
            return Err(corruption("not an sstable (bad magic number)"));
        }
        let mut meta = self.metaindex_handle;
        let consumed = match meta.decode_from(data) {
            Ok(n) => n,
            Err(e) => return Err(e),
        };
        self.metaindex_handle = meta;
        let mut index = self.index_handle;
        match index.decode_from(&data[consumed..data.len()]) {
            Ok(_) => {
                self.index_handle = index;
                Ok(())
            },
            Err(e) => Err(e),
        }
    }
}

impl BlockHandle {
    pub open spec fn new_spec() -> BlockHandle {
        BlockHandle { offset: 0, size: 0 }
    }
}

/// Decoding an encoded footer gives it back.
pub proof fn lemma_footer_roundtrip(f: Footer, old: Footer)
    ensures
        spec_decode_footer(footer_bytes(f), old) == Ok::<Footer, (Seq<char>, Footer)>(f),
        footer_bytes(f).len() == ENCODED_LENGTH,
{
    let hm = block_handle_bytes(f.metaindex_handle);
    let hi = block_handle_bytes(f.index_handle);
    crate::util::coding::lemma_varint_bytes_bound(f.metaindex_handle.offset as nat);
    crate::util::coding::lemma_varint_bytes_bound(f.metaindex_handle.size as nat);
    crate::util::coding::lemma_varint_bytes_bound(f.index_handle.offset as nat);
    crate::util::coding::lemma_varint_bytes_bound(f.index_handle.size as nat);
    let handles = hm + hi;
    let pad = Seq::new((40 - handles.len()) as nat, |_i: int| 0u8);
    let lo = fixed32_bytes((TABLE_MAGIC_NUMBER % 0x1_0000_0000) as u32);
    let hb = fixed32_bytes((TABLE_MAGIC_NUMBER / 0x1_0000_0000) as u32);
    let data = footer_bytes(f);
    assert(data.len() == 48);
    assert(data.subrange(40, 48) =~= lo + hb);
    lemma_fixed32_roundtrip((TABLE_MAGIC_NUMBER % 0x1_0000_0000) as u32, hb);
    assert(data.subrange(44, 48) =~= hb + Seq::<u8>::empty());
    lemma_fixed32_roundtrip((TABLE_MAGIC_NUMBER / 0x1_0000_0000) as u32, Seq::<u8>::empty());
    let rest = hi + pad + lo + hb;
    assert(data =~= hm + rest);
    lemma_block_handle_roundtrip(f.metaindex_handle, rest);
    assert(data.subrange(hm.len() as int, data.len() as int) =~= hi + (pad + lo + hb));
    lemma_block_handle_roundtrip(f.index_handle, pad + lo + hb);
}

/// What a block read from a table holds, given the bytes read (the block, its type byte
/// and checksum) and how many were read: the block's contents, decompressed as its type
/// byte says, or the error found.
pub open spec fn spec_block_from_read(buffer: Seq<u8>, read_size: nat, size: nat) -> Result<Seq<u8>, Option<Seq<char>>> {
    if read_size != size + BLOCK_TRAILER_SIZE {
        Err(Some("truncated block read"@))
    } else if buffer[size as int] == 0 {
        Ok(buffer.subrange(0, size as int))
    } else if buffer[size as int] == 1 {
        match snappy_frame_decoded(buffer.subrange(0, size as int)) {
            Some(d) => Ok(d),
            None => Err(None),
        }
    } else if buffer[size as int] == 2 {
        match zstd_decoded(buffer.subrange(0, size as int)) {
            Some(d) => Ok(d),
            None => Err(None),
        }
    } else {
        Err(Some("bad block type"@))
    }
}

/// The checks and decompression applied to a block once `read_size` bytes of it have been
/// read into `buffer` (sized for the block and its trailer). A failed decompression is an
/// I/O error; a short read or an unknown type byte is a corruption.
pub fn block_from_read(
    buffer: &[u8],
    read_size: usize,
    options: &ReadOptions,
    handle: &BlockHandle,
) -> (r: Result<BlockContent, DbError>)
    requires
        buffer@.len() == handle.size + BLOCK_TRAILER_SIZE,
        !options.verify_checksums,
    ensures
        match spec_block_from_read(buffer@, read_size as nat, handle.size as nat) {
            Ok(d) => r matches Ok(c) && c.data@ == d && c.cachable && c.heap_allocated,
            Err(Some(msg)) => r matches Err(DbError::Corruption(m)) && m@ == msg,
            Err(None) => r matches Err(DbError::IOError(_)),
        },
{
    let total = buffer.len();
    let size = total - BLOCK_TRAILER_SIZE;
    if read_size != total {
        return Err(corruption("truncated block read"));
    }
    let contents = &buffer[0..size];
    match CompressionType::try_from_u8(buffer[size]) {
        Ok(CompressionType::NoCompression) => {
            Ok(BlockContent { data: to_vec(contents), cachable: true, heap_allocated: true })
        },
        Ok(CompressionType::SnappyCompression) => match snappy_decompress(contents) {
            Ok(data) => Ok(BlockContent { data, cachable: true, heap_allocated: true }),
            Err(e) => Err(DbError::IOError(e)),
        },
        Ok(CompressionType::ZstdCompression) => match zstd_decompress(contents) {
            Ok(data) => Ok(BlockContent { data, cachable: true, heap_allocated: true }),
            Err(e) => Err(DbError::IOError(e)),
        },
        Err(_) => Err(corruption("bad block type")),
    }
}

/// A file that can be read at any offset.
pub trait RandomAccessFile {
    /// `bytes` may be what reading up to `n` bytes from `offset` on gives. A file that
    /// says no more admits any bytes.
    open spec fn reads(&self, offset: u64, n: usize, bytes: Seq<u8>) -> bool {
        true
    }

    /// Reads up to `n` bytes from `offset` on; fewer come back where the file ends first.
    /// `e` may be the error that reading up to `n` bytes from `offset` on gives. A file that
    /// says no more admits any error.
    open spec fn read_fails(&self, offset: u64, n: usize, e: DbError) -> bool {
        true
    }

    fn read_at(&self, offset: u64, n: usize) -> (r: Result<Vec<u8>, DbError>)
        ensures
            r matches Ok(b) ==> self.reads(offset, n, b@),
            r matches Err(e) ==> self.read_fails(offset, n, e),
    ;
}

/// What reading a block of `size` bytes gives when the file gave `b` for it: a
/// corruption when `b` is not the block's length and trailer long, else what
/// `block_from_read` makes of `b`.
pub open spec fn block_read_result(b: Seq<u8>, size: nat, r: Result<BlockContent, DbError>) -> bool {
    let n = (size + BLOCK_TRAILER_SIZE) as nat;
    if b.len() != n {
        r matches Err(DbError::Corruption(m)) && m@ == "truncated block read"@
    } else {
        match spec_block_from_read(b, n, size) {
            Ok(d) => r matches Ok(c) && c.data@ == d && c.cachable && c.heap_allocated,
            Err(Some(msg)) => r matches Err(DbError::Corruption(m)) && m@ == msg,
            Err(None) => r matches Err(DbError::IOError(_)),
        }
    }
}

/// The contents of the block that `handle` points at in `file`: its bytes and trailer are
/// read, then checked and decompressed as `block_from_read` does. A read that comes back
/// short is a corruption; an error from the file is passed on.
pub fn read_block<F: RandomAccessFile>(file: &F, options: &ReadOptions, handle: &BlockHandle) -> (r:
    Result<BlockContent, DbError>)
    requires
        !options.verify_checksums,
        handle.size + BLOCK_TRAILER_SIZE <= usize::MAX,
    ensures
        r matches Ok(c) ==> exists|b: Seq<u8>|
            b.len() == handle.size + BLOCK_TRAILER_SIZE && #[trigger] spec_block_from_read(
                b,
                b.len(),
                handle.size as nat,
            ) == Ok::<Seq<u8>, Option<Seq<char>>>(c.data@),
        r matches Ok(c) ==> exists|b: Seq<u8>|
            #[trigger] file.reads(handle.offset, (handle.size + BLOCK_TRAILER_SIZE) as usize, b) && b.len()
                == handle.size + BLOCK_TRAILER_SIZE && spec_block_from_read(b, b.len(), handle.size as nat)
                == Ok::<Seq<u8>, Option<Seq<char>>>(c.data@),
        (r matches Err(e) && file.read_fails(handle.offset, (handle.size + BLOCK_TRAILER_SIZE) as usize, e))
            || exists|b: Seq<u8>|
            #[trigger] file.reads(handle.offset, (handle.size + BLOCK_TRAILER_SIZE) as usize, b)
                && block_read_result(b, handle.size as nat, r),
{
    let n = handle.size as usize + BLOCK_TRAILER_SIZE;
    let buffer = match file.read_at(handle.offset, n) {
        Ok(b) => b,
        Err(e) => return Err(e),
    };
    if buffer.len() != n {
        return Err(corruption("truncated block read"));
    }
    block_from_read(buffer.as_slice(), n, options, handle)
}

} // verus!
