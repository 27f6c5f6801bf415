//! The decisions of the log reader: reading one fragment out of the buffered bytes, and
//! putting fragments together into records. Reading the file is left to the caller.
use crate::db::wal::format::{record_type_code, RecordType, BLOCK_SIZE, HEADER_SIZE};
use crate::db::wal::writer::{be32_bytes, header_bytes};
use crate::util::bytes::append_slice;
use crate::util::crc::{crc32_extended, crc32_of};
use vstd::prelude::*;

verus! {

/// Why no fragment could be read.
#[derive(Debug, Clone, PartialEq)]
pub enum ReadError {
    Eof,
    BadRecord(String),
    UnknownRecordType(u8),
}

/// What a read error says.
pub enum ReadErrorView {
    Eof,
    BadRecord(Seq<char>),
    UnknownRecordType(u8),
}

impl ReadError {
    pub open spec fn spec_view(&self) -> ReadErrorView {
        match self {
            ReadError::Eof => ReadErrorView::Eof,
            ReadError::BadRecord(m) => ReadErrorView::BadRecord(m@),
            ReadError::UnknownRecordType(t) => ReadErrorView::UnknownRecordType(*t),
        }
    }
}

/// The outcome of looking for a fragment at the front of the buffered bytes.
pub enum PhysicalStep {
    /// Too few bytes for a header: they are dropped and more must be read.
    NeedMore,
    /// The buffered bytes are dropped and the read fails.
    Drop(ReadError),
    /// A fragment of type `record_type` whose data are the `length` bytes after its
    /// header; header and data are used up. It starts `offset` bytes into the file.
    Fragment { record_type: RecordType, length: usize, offset: u64 },
    /// A fragment that starts before the initial offset: its bytes are used up and it
    /// reads as a bad record with an empty message.
    BeforeInitial { length: usize },
}

/// What a physical step says.
pub enum PhysicalView {
    NeedMore,
    Drop(ReadErrorView),
    Fragment { record_type: RecordType, length: nat, offset: nat },
    BeforeInitial { length: nat },
}

impl PhysicalStep {
    pub open spec fn spec_view(&self) -> PhysicalView {
        match self {
            PhysicalStep::NeedMore => PhysicalView::NeedMore,
            PhysicalStep::Drop(e) => PhysicalView::Drop(e.spec_view()),
            PhysicalStep::Fragment { record_type, length, offset } => PhysicalView::Fragment {
                record_type: *record_type,
                length: *length as nat,
                offset: *offset as nat,
            },
            PhysicalStep::BeforeInitial { length } => PhysicalView::BeforeInitial {
                length: *length as nat,
            },
        }
    }
}

/// The record type numbered `n`, if any.
pub open spec fn record_type_of(n: u8) -> Option<RecordType> {
    if n == 0 {
        Some(RecordType::Zero)
    } else if n == 1 {
        Some(RecordType::Full)
    } else if n == 2 {
        Some(RecordType::First)
    } else if n == 3 {
        Some(RecordType::Middle)
    } else if n == 4 {
        Some(RecordType::Last)
    } else {
        None
    }
}

/// The number whose big-endian encoding is the first four bytes of `b`.
pub open spec fn be32_value(b: Seq<u8>) -> u32 {
    (b[0] * 0x1000000 + b[1] * 0x10000 + b[2] * 0x100 + b[3]) as u32
}

/// Reading a fragment at the front of `buf`, the buffer ending `end_of_buffer_offset`
/// bytes into the file.
pub open spec fn physical_step(
    buf: Seq<u8>,
    eof: bool,
    checksum: bool,
    end_of_buffer_offset: nat,
    initial_offset: nat,
) -> PhysicalView {
    if buf.len() < HEADER_SIZE {
        if eof {
            PhysicalView::Drop(ReadErrorView::Eof)
        } else {
            PhysicalView::NeedMore
        }
    } else {
        let length = buf[4] + 0x100 * buf[5];
        match record_type_of(buf[6]) {
            None => PhysicalView::Drop(ReadErrorView::UnknownRecordType(buf[6])),
            Some(t) => if HEADER_SIZE + length > buf.len() {
                if eof {
                    PhysicalView::Drop(ReadErrorView::Eof)
                } else {
                    PhysicalView::Drop(ReadErrorView::BadRecord("bad record length"@))
                }
            } else if t == RecordType::Zero && length == 0 {
                PhysicalView::Drop(ReadErrorView::BadRecord("zero length record"@))
            } else if checksum && be32_value(buf) != crc32_extended(
                0,
                buf.subrange(HEADER_SIZE - 1, HEADER_SIZE + length),
            ) {
                PhysicalView::Drop(ReadErrorView::BadRecord("checksum mismatch"@))
            } else if end_of_buffer_offset - buf.len() < initial_offset {
                PhysicalView::BeforeInitial { length: length as nat }
            } else {
                PhysicalView::Fragment {
                    record_type: t,
                    length: length as nat,
                    offset: (end_of_buffer_offset - buf.len()) as nat,
                }
            },
        }
    }
}

/// Looks for a fragment at the front of the buffered bytes `buf`.
pub fn parse_physical_record(
    buf: &[u8],
    eof: bool,
    checksum: bool,
    end_of_buffer_offset: u64,
    initial_offset: u64,
) -> (r: PhysicalStep)
    requires
        end_of_buffer_offset >= buf@.len(),
    ensures
        r.spec_view() == physical_step(
            buf@,
            eof,
            checksum,
            end_of_buffer_offset as nat,
            initial_offset as nat,
        ),
{
    if buf.len() < HEADER_SIZE {
        if eof {
            return PhysicalStep::Drop(ReadError::Eof);
        }
        return PhysicalStep::NeedMore;
    }
    let x4 = buf[4];
    let x5 = buf[5];
    let a = x4 as u32 & 0xff;
    let b = x5 as u32 & 0xff;
    let record_type_num = buf[6];
    let record_type = match RecordType::try_from_u8(record_type_num) {
        Ok(t) => t,
        Err(_) => {
            return PhysicalStep::Drop(ReadError::UnknownRecordType(record_type_num));
        },
    };
    let length = a | (b << 8);
    proof {
        assert(a == x4) by (bit_vector)
            requires
                a == (x4 as u32) & 0xff,
        ;
        assert(b == x5) by (bit_vector)
            requires
                b == (x5 as u32) & 0xff,
        ;
        assert(a | (b << 8) == a + 0x100 * b) by (bit_vector)
            requires
                a < 0x100,
                b < 0x100,
        ;
    }
    if HEADER_SIZE + length as usize > buf.len() {
        if !eof {
            return PhysicalStep::Drop(ReadError::BadRecord(String::from_str("bad record length")));
        }
        return PhysicalStep::Drop(ReadError::Eof);
    }
    if record_type == RecordType::Zero && length == 0 {
        return PhysicalStep::Drop(ReadError::BadRecord(String::from_str("zero length record")));
    }
    if checksum {
        let b0 = buf[0] as u32;
        let b1 = buf[1] as u32;
        let b2 = buf[2] as u32;
        let b3 = buf[3] as u32;
        let expected_crc = (b0 << 24) | (b1 << 16) | (b2 << 8) | b3;
        assert((b0 << 24) | (b1 << 16) | (b2 << 8) | b3 == b0 * 0x1000000 + b1 * 0x10000 + b2 * 0x100
            + b3) by (bit_vector)
            requires
                b0 < 0x100,
                b1 < 0x100,
                b2 < 0x100,
                b3 < 0x100,
        ;
        let actual_crc = crc32_of(&buf[HEADER_SIZE - 1..length as usize + HEADER_SIZE]);
        if expected_crc != actual_crc {
            return PhysicalStep::Drop(ReadError::BadRecord(String::from_str("checksum mismatch")));
        }
    }
    if end_of_buffer_offset - (buf.len() as u64) < initial_offset {
        return PhysicalStep::BeforeInitial { length: length as usize };
    }
    PhysicalStep::Fragment {
        record_type,
        length: length as usize,
        offset: end_of_buffer_offset - buf.len() as u64,
    }
}

/// Law: a fragment as the writer lays it out, checksum and all, reads back with its type
/// and length, whatever bytes follow it, unless it lies before the initial offset. Only
/// an empty fragment of type zero is refused.
pub proof fn lemma_written_fragment_reads_back(
    t: RecordType,
    data: Seq<u8>,
    rest: Seq<u8>,
    eof: bool,
    checksum: bool,
    end_of_buffer_offset: nat,
    initial_offset: nat,
)
    requires
        data.len() < 0x10000,
        !(t == RecordType::Zero && data.len() == 0),
        end_of_buffer_offset >= (header_bytes(t, data) + data + rest).len() + initial_offset,
    ensures
        physical_step(
            header_bytes(t, data) + data + rest,
            eof,
            checksum,
            end_of_buffer_offset,
            initial_offset,
        ) == (PhysicalView::Fragment {
            record_type: t,
            length: data.len(),
            offset: (end_of_buffer_offset - (header_bytes(t, data) + data + rest).len()) as nat,
        }),
{
    let buf = header_bytes(t, data) + data + rest;
    let crc = crc32_extended(0, seq![record_type_code(t)] + data);
    assert(buf[4] + 0x100 * buf[5] == data.len());
    assert(record_type_of(buf[6]) == Some(t));
    assert(buf.subrange(HEADER_SIZE - 1, HEADER_SIZE + data.len()) =~= seq![record_type_code(t)] + data);
    let c = crc;
    assert(be32_value(buf) == c) by {
        assert(buf[0] == ((c / 0x1000000) % 0x100) as u8);
        assert(buf[1] == ((c / 0x10000) % 0x100) as u8);
        assert(buf[2] == ((c / 0x100) % 0x100) as u8);
        assert(buf[3] == (c % 0x100) as u8);
        assert(((c / 0x1000000) % 0x100) as u8 * 0x1000000 + ((c / 0x10000) % 0x100) as u8 * 0x10000
            + ((c / 0x100) % 0x100) as u8 * 0x100 + (c % 0x100) as u8 == c) by (bit_vector);
    }
}

// ---------------------------------------------------------------------------
// Putting records together
// ---------------------------------------------------------------------------
/// Where the reader starts looking for the initial record: the start of the block that
/// holds `initial_offset`, or of the next one when the offset lies in a block's last six
/// bytes, where no fragment can start.
pub open spec fn initial_block_start_spec(initial_offset: u64) -> nat {
    let in_block = initial_offset % BLOCK_SIZE;
    let start = (initial_offset - in_block) as nat;
    if in_block > BLOCK_SIZE - 6 {
        (start + BLOCK_SIZE) as nat
    } else {
        start
    }
}

/// The offset of the block where reading starts, for a reader asked to start at
/// `initial_offset`.
pub fn initial_block_start(initial_offset: u64) -> (r: u64)
    requires
        initial_offset <= u64::MAX - BLOCK_SIZE,
    ensures
        r == initial_block_start_spec(initial_offset),
{
    let offset_in_block = initial_offset % BLOCK_SIZE;
    let mut block_start_location = initial_offset - offset_in_block;
    if offset_in_block > BLOCK_SIZE - 6 {
        block_start_location = block_start_location + BLOCK_SIZE;
    }
    block_start_location
}

/// What the reader holds while putting a record together.
pub struct AsmState {
    pub in_fragmented_record: bool,
    pub prospective_record_offset: nat,
    pub re_syncing: bool,
    pub last_record_offset: nat,
    pub scratch: Seq<u8>,
}

/// Taking in one fragment: the new state, and the record to return if one is complete.
pub open spec fn fragment_step(s: AsmState, t: RecordType, fragment: Seq<u8>, offset: nat) -> (AsmState, Option<Seq<u8>>) {
    if s.re_syncing && t == RecordType::Middle {
        (s, None)
    } else if s.re_syncing && t == RecordType::Last {
        (AsmState { re_syncing: false, ..s }, None)
    } else {
        let s = AsmState { re_syncing: false, ..s };
        match t {
            RecordType::Zero => (s, None),
            RecordType::Full => (
                AsmState {
                    prospective_record_offset: offset,
                    scratch: Seq::empty(),
                    last_record_offset: offset,
                    ..s
                },
                Some(fragment),
            ),
            RecordType::First => (
                AsmState {
                    prospective_record_offset: offset,
                    scratch: s.scratch + fragment,
                    in_fragmented_record: true,
                    ..s
                },
                None,
            ),
            RecordType::Middle => if s.in_fragmented_record {
                (AsmState { scratch: s.scratch + fragment, ..s }, None)
            } else {
                (s, None)
            },
            RecordType::Last => if s.in_fragmented_record {
                (
                    AsmState {
                        scratch: s.scratch + fragment,
                        last_record_offset: s.prospective_record_offset,
                        ..s
                    },
                    Some(s.scratch + fragment),
                )
            } else {
                (s, None)
            },
        }
    }
}

/// What a read error does to the record being put together: the end of the file ends
/// the search, other errors drop the partial record and the search goes on.
pub open spec fn error_step(s: AsmState, e: ReadErrorView) -> (AsmState, bool) {
    match e {
        ReadErrorView::Eof => (
            AsmState { scratch: if s.in_fragmented_record { Seq::empty() } else { s.scratch }, ..s },
            true,
        ),
        ReadErrorView::BadRecord(_) => (
            if s.in_fragmented_record {
                AsmState { in_fragmented_record: false, scratch: Seq::empty(), ..s }
            } else {
                s
            },
            false,
        ),
        ReadErrorView::UnknownRecordType(_) => (
            AsmState { in_fragmented_record: false, scratch: Seq::empty(), ..s },
            false,
        ),
    }
}

/// What to do after a fragment or an error.
pub enum RecordStep {
    /// Read the next fragment.
    Continue,
    /// Stop, returning this record, or none at the end of the file.
    Done(Option<Vec<u8>>),
}

/// The state of the reader's search for the next record.
pub struct RecordAssembly {
    pub in_fragmented_record: bool,
    pub prospective_record_offset: u64,
    pub re_syncing: bool,
    pub last_record_offset: u64,
    pub scratch: Vec<u8>,
}

impl RecordAssembly {
    /// What the search holds.
    pub open spec fn spec_state(&self) -> AsmState {
        AsmState {
            in_fragmented_record: self.in_fragmented_record,
            prospective_record_offset: self.prospective_record_offset as nat,
            re_syncing: self.re_syncing,
            last_record_offset: self.last_record_offset as nat,
            scratch: self.scratch@,
        }
    }

    /// A search with no partial record, resynchronising or not, after the record at
    /// `last_record_offset`.
    pub fn new(re_syncing: bool, last_record_offset: u64) -> (r: Self)
        ensures
            r.spec_state() == (AsmState {
                in_fragmented_record: false,
                prospective_record_offset: 0,
                re_syncing,
                last_record_offset: last_record_offset as nat,
                scratch: Seq::empty(),
            }),
    {
        RecordAssembly {
            in_fragmented_record: false,
            prospective_record_offset: 0,
            re_syncing,
            last_record_offset,
            scratch: Vec::new(),
        }
    }

    /// Takes in a fragment of type `t` read at `offset`.
    pub fn on_fragment(&mut self, t: RecordType, fragment: &[u8], offset: u64) -> (r: RecordStep)
        ensures
            ({
                let (s, out) = fragment_step(old(self).spec_state(), t, fragment@, offset as nat);
                &&& final(self).spec_state() == s
                &&& match out {
                    None => r is Continue,
                    Some(rec) => r matches RecordStep::Done(Some(v)) && v@ == rec,
                }
            }),
            t == RecordType::First ==> final(self).in_fragmented_record && !final(self).re_syncing
                && final(self).scratch@ == old(self).scratch@ + fragment@ && r is Continue,
            t == RecordType::Full ==> !final(self).re_syncing && (r matches RecordStep::Done(Some(v))
                && v@ == fragment@),
            old(self).re_syncing && t == RecordType::Middle ==> r is Continue && final(self).spec_state()
                == old(self).spec_state(),
            old(self).re_syncing && t == RecordType::Last ==> r is Continue && !final(self).re_syncing,
    {
        if self.re_syncing {
            match t {
                RecordType::Middle => {
                    return RecordStep::Continue;
                },
                RecordType::Last => {
                    self.re_syncing = false;
                    return RecordStep::Continue;
                },
                _ => {
                    self.re_syncing = false;
                },
            }
        }
        match t {
            RecordType::Zero => RecordStep::Continue,
            RecordType::Full => {
                self.prospective_record_offset = offset;
                self.scratch.clear();
                self.last_record_offset = self.prospective_record_offset;
                RecordStep::Done(Some(crate::util::bytes::to_vec(fragment)))
            },
            RecordType::First => {
                self.prospective_record_offset = offset;
                append_slice(&mut self.scratch, fragment);
                self.in_fragmented_record = true;
                RecordStep::Continue
            },
            RecordType::Middle => {
                if self.in_fragmented_record {
                    append_slice(&mut self.scratch, fragment);
                }
                RecordStep::Continue
            },
            RecordType::Last => {
                if self.in_fragmented_record {
                    append_slice(&mut self.scratch, fragment);
                    self.last_record_offset = self.prospective_record_offset;
                    RecordStep::Done(Some(crate::util::bytes::to_vec(self.scratch.as_slice())))
                } else {
                    RecordStep::Continue
                }
            },
        }
    }

    /// Takes in a read error.
    pub fn on_error(&mut self, e: &ReadError) -> (r: RecordStep)
        ensures
            ({
                let (s, stop) = error_step(old(self).spec_state(), e.spec_view());
                &&& final(self).spec_state() == s
                &&& stop ==> (r matches RecordStep::Done(None))
                &&& !stop ==> r is Continue
            }),
    {
        match e {
            ReadError::Eof => {
                if self.in_fragmented_record {
                    self.scratch.clear();
                }
                RecordStep::Done(None)
            },
            ReadError::BadRecord(_) => {
                if self.in_fragmented_record {
                    self.in_fragmented_record = false;
                    self.scratch.clear();
                }
                RecordStep::Continue
            },
            ReadError::UnknownRecordType(_) => {
                self.in_fragmented_record = false;
                self.scratch.clear();
                RecordStep::Continue
            },
        }
    }
}

/// The fragments of a record cut into `pieces`, taken in after a prefix that leaves
/// the state `s`: each piece in turn, the first as `First`, the last as `Last`, the rest
/// as `Middle`.
pub open spec fn middle_steps(s: AsmState, pieces: Seq<Seq<u8>>, offset: nat) -> AsmState
    decreases pieces.len(),
{
    if pieces.len() == 0 {
        s
    } else {
        middle_steps(fragment_step(s, RecordType::Middle, pieces[0], offset).0, pieces.drop_first(), offset)
    }
}

/// The concatenation of `pieces`.
pub open spec fn concat(pieces: Seq<Seq<u8>>) -> Seq<u8>
    decreases pieces.len(),
{
    if pieces.len() == 0 {
        Seq::empty()
    } else {
        pieces[0] + concat(pieces.drop_first())
    }
}

proof fn lemma_middle_steps(s: AsmState, pieces: Seq<Seq<u8>>, offset: nat)
    requires
        s.in_fragmented_record,
        !s.re_syncing,
    ensures
        middle_steps(s, pieces, offset) == (AsmState { scratch: s.scratch + concat(pieces), ..s }),
    decreases pieces.len(),
{
    if pieces.len() == 0 {
        assert(s.scratch + concat(pieces) =~= s.scratch);
    } else {
        let s1 = fragment_step(s, RecordType::Middle, pieces[0], offset).0;
        lemma_middle_steps(s1, pieces.drop_first(), offset);
        assert(s.scratch + pieces[0] + concat(pieces.drop_first()) =~= s.scratch + concat(pieces));
    }
}

/// Law: a record the writer cut into a first fragment, middle fragments and a last one
/// is put back together whole, starting from a search with no partial record that is not
/// resynchronising.
pub proof fn lemma_fragments_reassemble(
    s: AsmState,
    first: Seq<u8>,
    middles: Seq<Seq<u8>>,
    last: Seq<u8>,
    offset: nat,
)
    requires
        !s.re_syncing,
        s.scratch == Seq::<u8>::empty(),
    ensures
        ({
            let s1 = fragment_step(s, RecordType::First, first, offset).0;
            let s2 = middle_steps(s1, middles, offset);
            fragment_step(s2, RecordType::Last, last, offset).1 == Some(first + concat(middles) + last)
        }),
{
    let s1 = fragment_step(s, RecordType::First, first, offset).0;
    assert(s1.scratch =~= first);
    lemma_middle_steps(s1, middles, offset);
}

} // verus!
