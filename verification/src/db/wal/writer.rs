//! The decisions of the log writer: how a record is cut into fragments, and the header of
//! each fragment. The file writes themselves are made by the caller.
use crate::db::wal::format::{record_type_code, RecordType, BLOCK_SIZE, HEADER_SIZE, MAX_RECORD_TYPE};
use crate::db::wal::log_law::{frag_len, frag_pad, frag_start};
use crate::util::crc::{crc32_continue, crc32_extended, crc32_of, lemma_crc32_append};
use vstd::prelude::*;

verus! {

/// The checksum of the type byte alone, from which a fragment's checksum continues.
pub open spec fn type_crc_spec(t: u8) -> u32 {
    crc32_extended(0, seq![t])
}

/// The big-endian bytes of `v`.
pub open spec fn be32_bytes(v: u32) -> Seq<u8> {
    seq![
        ((v / 0x1000000) % 0x100) as u8,
        ((v / 0x10000) % 0x100) as u8,
        ((v / 0x100) % 0x100) as u8,
        (v % 0x100) as u8,
    ]
}

/// The header of a fragment of type `t` carrying `data`: the checksum of the type and
/// the data, big-endian, then the length's low and high bytes, then the type.
pub open spec fn header_bytes(t: RecordType, data: Seq<u8>) -> Seq<u8> {
    be32_bytes(crc32_extended(0, seq![record_type_code(t)] + data)) + seq![
        (data.len() % 0x100) as u8,
        ((data.len() / 0x100) % 0x100) as u8,
        record_type_code(t),
    ]
}

/// The checksums of the type bytes `0..=MAX_RECORD_TYPE`.
fn init_type_crc() -> (r: Vec<u32>)
    ensures
        r@.len() == MAX_RECORD_TYPE + 1,
        forall|i: int| 0 <= i <= MAX_RECORD_TYPE ==> r@[i] == type_crc_spec(i as u8),
{
    let mut v: Vec<u32> = Vec::new();
    let mut i: u8 = 0;
    while i <= MAX_RECORD_TYPE
        invariant
            i <= MAX_RECORD_TYPE + 1,
            v@.len() == i,
            forall|j: int| 0 <= j < i ==> v@[j] == type_crc_spec(j as u8),
        decreases MAX_RECORD_TYPE + 1 - i,
    {
        let byte: Vec<u8> = vec![i];
        assert(byte@ =~= seq![i]);
        v.push(crc32_of(byte.as_slice()));
        i = i + 1;
    }
    v
}

/// Where the next fragment goes: how many zero bytes pad out the current block first, how
/// many bytes of the record it carries, and its type.
pub struct Fragment {
    pub padding: usize,
    pub length: usize,
    pub record_type: RecordType,
}

/// The type of a fragment, from whether it starts and whether it ends its record.
pub open spec fn fragment_type(begin: bool, end: bool) -> RecordType {
    if begin && end {
        RecordType::Full
    } else if begin {
        RecordType::First
    } else if end {
        RecordType::Last
    } else {
        RecordType::Middle
    }
}

/// The writer's state: where in the current block it is, the type checksums, and how
/// many bytes it has written.
pub struct Writer {
    block_offset: usize,
    type_crc: Vec<u32>,
    pub size: usize,
}

impl Writer {
    /// The offset in the current block.
    pub closed spec fn spec_block_offset(&self) -> nat {
        self.block_offset as nat
    }

    /// The number of bytes written.
    pub closed spec fn spec_size(&self) -> nat {
        self.size as nat
    }

    /// The offset lies within a block and the type checksums are those of the types.
    pub closed spec fn wf(&self) -> bool {
        &&& self.block_offset <= BLOCK_SIZE
        &&& self.type_crc@.len() == MAX_RECORD_TYPE + 1
        &&& forall|i: int| 0 <= i <= MAX_RECORD_TYPE ==> self.type_crc@[i] == type_crc_spec(i as u8)
    }

    /// A writer appending to a log of `dest_length` bytes.
    pub fn new(dest_length: u64) -> (r: Writer)
        ensures
            r.wf(),
            r.spec_block_offset() == dest_length % BLOCK_SIZE,
            r.spec_size() == dest_length as usize,
    {
        Writer {
            block_offset: (dest_length % BLOCK_SIZE) as usize,
            type_crc: init_type_crc(),
            size: #[verifier::truncate] (dest_length as usize),
        }
    }

    /// Plans the next fragment of a record with `left` bytes still to write: a block with
    /// no room for a header is padded out and a new one started, and the fragment takes
    /// as much of the record as the block holds.
    pub fn next_fragment(&mut self, left: usize, begin: bool) -> (r: Fragment)
        requires
            old(self).wf(),
        ensures
            final(self).wf(),
            final(self).spec_size() == old(self).spec_size(),
            ({
                let leftover = BLOCK_SIZE - old(self).spec_block_offset();
                let start = if leftover < HEADER_SIZE { 0 } else { old(self).spec_block_offset() };
                let avail = BLOCK_SIZE - start - HEADER_SIZE;
                &&& r.padding == if leftover < HEADER_SIZE { leftover } else { 0 }
                &&& final(self).spec_block_offset() == start
                &&& r.length == if left < avail { left as int } else { avail }
                &&& r.record_type == fragment_type(begin, left == r.length)
                &&& start + HEADER_SIZE + r.length <= BLOCK_SIZE
            }),
            r.padding == frag_pad(old(self).spec_block_offset()),
            r.length == frag_len(old(self).spec_block_offset(), left as nat),
            final(self).spec_block_offset() == frag_start(old(self).spec_block_offset()),
    {
        let leftover = BLOCK_SIZE - self.block_offset as u64;
        let mut padding: usize = 0;
        if leftover < HEADER_SIZE as u64 {
            padding = leftover as usize;
            self.block_offset = 0;
        }
        let avail = BLOCK_SIZE as usize - self.block_offset - HEADER_SIZE;
        let fragment_length = if left < avail {
            left
        } else {
            avail
        };
        let end = left == fragment_length;
        let record_type = if begin && end {
            RecordType::Full
        } else if begin {
            RecordType::First
        } else if end {
            RecordType::Last
        } else {
            RecordType::Middle
        };
        Fragment { padding, length: fragment_length, record_type }
    }

    /// Plans the next fragment of a record of `data_len` bytes of which the first `pos`
    /// are written: the fragment as `next_fragment` plans it for the bytes left, and where
    /// in the record its data ends.
    pub fn next_piece(&mut self, data_len: usize, pos: usize, begin: bool) -> (r: (Fragment, usize))
        requires
            old(self).wf(),
            pos <= data_len,
        ensures
            final(self).wf(),
            final(self).spec_size() == old(self).spec_size(),
            r.0.padding == frag_pad(old(self).spec_block_offset()),
            r.0.length == frag_len(old(self).spec_block_offset(), (data_len - pos) as nat),
            r.0.record_type == fragment_type(begin, data_len - pos == r.0.length),
            final(self).spec_block_offset() == frag_start(old(self).spec_block_offset()),
            final(self).spec_block_offset() + HEADER_SIZE + r.0.length <= BLOCK_SIZE,
            r.1 == pos + r.0.length,
            r.1 <= data_len,
    {
        let fragment = self.next_fragment(data_len - pos, begin);
        let end = pos + fragment.length;
        (fragment, end)
    }

    /// The header of a fragment of type `t` carrying `data`.
    pub fn physical_record_header(&self, t: RecordType, data: &[u8]) -> (r: Vec<u8>)
        requires
            self.wf(),
        ensures
            r@ == header_bytes(t, data@),
    {
        let t_num = t.as_u8();
        let crc = crc32_continue(self.type_crc[t_num as usize], data);
        proof {
            assert(self.type_crc@[t_num as int] == crc32_extended(0, seq![t_num]));
            lemma_crc32_append(0, seq![t_num], data@);
        }
        let len = data.len();
        let mut buf: Vec<u8> = Vec::new();
        buf.push((crc >> 24) as u8);
        buf.push(((crc >> 16) & 0xff) as u8);
        buf.push(((crc >> 8) & 0xff) as u8);
        buf.push((crc & 0xff) as u8);
        buf.push((len & 0xff) as u8);
        buf.push(((len >> 8) & 0xff) as u8);
        buf.push(t_num);
        proof {
            assert((crc >> 24) as u8 == ((crc / 0x1000000) % 0x100) as u8) by (bit_vector);
            assert(((crc >> 16) & 0xff) as u8 == ((crc / 0x10000) % 0x100) as u8) by (bit_vector);
            assert(((crc >> 8) & 0xff) as u8 == ((crc / 0x100) % 0x100) as u8) by (bit_vector);
            assert((crc & 0xff) as u8 == (crc % 0x100) as u8) by (bit_vector);
            assert((len & 0xff) as u8 == (len % 0x100) as u8) by (bit_vector);
            assert(((len >> 8) & 0xff) as u8 == ((len / 0x100) % 0x100) as u8) by (bit_vector);
            assert(buf@ =~= header_bytes(t, data@));
        }
        buf
    }

    /// Records that a fragment of `length` bytes went out: the size counts the header if
    /// it was written and the data if that was written too, and the block offset moves
    /// past both either way.
    pub fn record_emitted(&mut self, header_written: bool, data_written: bool, length: usize)
        requires
            old(self).wf(),
            old(self).spec_block_offset() + HEADER_SIZE + length <= BLOCK_SIZE,
            old(self).spec_size() + HEADER_SIZE + length <= usize::MAX,
        ensures
            final(self).wf(),
            final(self).spec_block_offset() == old(self).spec_block_offset() + HEADER_SIZE + length,
            final(self).spec_size() == old(self).spec_size() + if header_written {
                HEADER_SIZE + if data_written { length } else { 0 }
            } else {
                0
            },
    {
        if header_written {
            self.size = self.size + HEADER_SIZE;
            if data_written {
                self.size = self.size + length;
            }
        }
        self.block_offset = self.block_offset + HEADER_SIZE + length;
    }
}

} // verus!
