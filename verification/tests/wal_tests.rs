use mencius::db::wal::format::{RecordType, BLOCK_SIZE, HEADER_SIZE, MAX_RECORD_TYPE};
use mencius::db::wal::make_log_file_name;
use mencius::db::wal::reader::{
    initial_block_start, parse_physical_record, PhysicalStep, ReadError, RecordAssembly,
    RecordStep,
};
use mencius::db::wal::writer::Writer;

#[test]
fn log_file_names_are_zero_padded() {
    assert_eq!(make_log_file_name(7), "000007.log");
    assert_eq!(make_log_file_name(1234567), "1234567.log");
}

#[test]
fn record_type_numbers_and_names() {
    assert_eq!(RecordType::try_from_u8(0), Ok(RecordType::Zero));
    assert_eq!(RecordType::try_from_u8(4), Ok(RecordType::Last));
    assert_eq!(RecordType::try_from_u8(5), Err("Invalid record type"));
    assert_eq!(RecordType::Middle.as_u8(), 3);
    assert_eq!(RecordType::First.to_string(), "first");
    assert_eq!(MAX_RECORD_TYPE, 4);
    assert_eq!(HEADER_SIZE, 7);
    assert_eq!(BLOCK_SIZE, 32768);
}

/// Cuts a record into fragments the way the writer does, returning each fragment's
/// header and data together, and the zero padding between blocks.
fn write_record(w: &mut Writer, data: &[u8]) -> Vec<u8> {
    let mut out = Vec::new();
    let mut left = data.len();
    let mut pos = 0;
    let mut begin = true;
    loop {
        let f = w.next_fragment(left, begin);
        out.extend(std::iter::repeat(0u8).take(f.padding));
        let piece = &data[pos..pos + f.length];
        out.extend_from_slice(&w.physical_record_header(f.record_type, piece));
        out.extend_from_slice(piece);
        w.record_emitted(true, true, f.length);
        pos += f.length;
        left -= f.length;
        begin = false;
        if left == 0 {
            break;
        }
    }
    out
}

/// Reads every record of `log`, as the reader's state machine does.
fn read_records(log: &[u8]) -> Vec<Vec<u8>> {
    let mut records = Vec::new();
    let mut pos = 0usize;
    let end = log.len() as u64;
    let mut assembly = RecordAssembly::new(false, 0);
    loop {
        let buf = &log[pos..];
        let step = parse_physical_record(buf, true, true, end, 0);
        let action = match step {
            PhysicalStep::Fragment { record_type, length, offset: _ } => {
                let frag = &buf[HEADER_SIZE..HEADER_SIZE + length];
                pos += HEADER_SIZE + length;
                assembly.on_fragment(record_type, frag, 0)
            }
            PhysicalStep::Drop(e) => {
                pos = log.len();
                assembly.on_error(&e)
            }
            PhysicalStep::NeedMore => panic!("the whole log is buffered"),
            PhysicalStep::BeforeInitial { length } => {
                pos += HEADER_SIZE + length;
                RecordStep::Continue
            }
        };
        match action {
            RecordStep::Continue => {}
            RecordStep::Done(Some(r)) => records.push(r),
            RecordStep::Done(None) => break,
        }
        // Skip block padding too short to hold a header.
        let in_block = (pos as u64 % BLOCK_SIZE) as usize;
        if (BLOCK_SIZE as usize) - in_block < HEADER_SIZE {
            pos += (BLOCK_SIZE as usize) - in_block;
        }
        if pos > log.len() {
            pos = log.len();
        }
    }
    records
}

#[test]
fn small_record_is_one_full_fragment() {
    let mut w = Writer::new(0);
    let log = write_record(&mut w, b"hello");
    assert_eq!(log.len(), HEADER_SIZE + 5);
    assert_eq!(log[4], 5);
    assert_eq!(log[5], 0);
    assert_eq!(log[6], RecordType::Full.as_u8());
    assert_eq!(read_records(&log), vec![b"hello".to_vec()]);
}

#[test]
fn large_record_spans_blocks_and_reads_back() {
    let mut w = Writer::new(0);
    let big: Vec<u8> = (0..100_000u32).map(|i| (i % 251) as u8).collect();
    let mut log = write_record(&mut w, b"first");
    log.extend(write_record(&mut w, &big));
    log.extend(write_record(&mut w, b"last"));
    let records = read_records(&log);
    assert_eq!(records.len(), 3);
    assert_eq!(records[0], b"first".to_vec());
    assert_eq!(records[1], big);
    assert_eq!(records[2], b"last".to_vec());
}

#[test]
fn fragment_plan_pads_a_block_tail() {
    // Four bytes left in the block: too few for a header.
    let mut w = Writer::new(BLOCK_SIZE - 4);
    let f = w.next_fragment(10, true);
    assert_eq!(f.padding, 4);
    assert_eq!(f.length, 10);
    assert_eq!(f.record_type, RecordType::Full);
}

#[test]
fn fragment_types_follow_position_in_record() {
    let mut w = Writer::new(0);
    let f = w.next_fragment(2 * BLOCK_SIZE as usize, true);
    assert_eq!(f.record_type, RecordType::First);
    assert_eq!(f.length, BLOCK_SIZE as usize - HEADER_SIZE);
    w.record_emitted(true, true, f.length);
    let f = w.next_fragment(BLOCK_SIZE as usize, false);
    assert_eq!(f.record_type, RecordType::Middle);
    w.record_emitted(true, true, f.length);
    let f = w.next_fragment(100, false);
    assert_eq!(f.record_type, RecordType::Last);
}

#[test]
fn corrupted_checksum_is_a_bad_record() {
    let mut w = Writer::new(0);
    let mut log = write_record(&mut w, b"payload");
    log[HEADER_SIZE] ^= 1;
    match parse_physical_record(&log, false, true, log.len() as u64, 0) {
        PhysicalStep::Drop(ReadError::BadRecord(m)) => assert_eq!(m, "checksum mismatch"),
        _ => panic!("expected a checksum mismatch"),
    }
    // Without checksum checks the fragment is accepted.
    assert!(matches!(
        parse_physical_record(&log, false, false, log.len() as u64, 0),
        PhysicalStep::Fragment { record_type: RecordType::Full, length: 7, offset: 0 }
    ));
}

#[test]
fn physical_record_errors() {
    // Too short for a header.
    assert!(matches!(parse_physical_record(&[1, 2], false, true, 2, 0), PhysicalStep::NeedMore));
    assert!(matches!(
        parse_physical_record(&[1, 2], true, true, 2, 0),
        PhysicalStep::Drop(ReadError::Eof)
    ));
    // Unknown type.
    let h = [0, 0, 0, 0, 0, 0, 9];
    assert!(matches!(
        parse_physical_record(&h, false, true, 7, 0),
        PhysicalStep::Drop(ReadError::UnknownRecordType(9))
    ));
    // Length past the buffer.
    let h = [0, 0, 0, 0, 50, 0, 1];
    match parse_physical_record(&h, false, true, 7, 0) {
        PhysicalStep::Drop(ReadError::BadRecord(m)) => assert_eq!(m, "bad record length"),
        _ => panic!("expected a bad length"),
    }
    assert!(matches!(
        parse_physical_record(&h, true, true, 7, 0),
        PhysicalStep::Drop(ReadError::Eof)
    ));
    // Zero-length record of type zero.
    let h = [0, 0, 0, 0, 0, 0, 0];
    match parse_physical_record(&h, false, false, 7, 0) {
        PhysicalStep::Drop(ReadError::BadRecord(m)) => assert_eq!(m, "zero length record"),
        _ => panic!("expected a zero length record"),
    }
}

#[test]
fn fragments_before_initial_offset_are_skipped() {
    let mut w = Writer::new(0);
    let log = write_record(&mut w, b"abc");
    assert!(matches!(
        parse_physical_record(&log, false, true, log.len() as u64, 1),
        PhysicalStep::BeforeInitial { length: 3 }
    ));
}

#[test]
fn reassembly_drops_partial_record_on_bad_record() {
    let mut assembly = RecordAssembly::new(false, 0);
    assert!(matches!(assembly.on_fragment(RecordType::First, b"ab", 0), RecordStep::Continue));
    assert!(matches!(assembly.on_error(&ReadError::BadRecord(String::new())), RecordStep::Continue));
    // A last fragment without its first one is ignored.
    assert!(matches!(assembly.on_fragment(RecordType::Last, b"cd", 0), RecordStep::Continue));
    assert!(matches!(assembly.on_error(&ReadError::Eof), RecordStep::Done(None)));
}

#[test]
fn resyncing_skips_to_the_next_record_start() {
    let mut assembly = RecordAssembly::new(true, 0);
    assert!(matches!(assembly.on_fragment(RecordType::Middle, b"x", 0), RecordStep::Continue));
    assert!(matches!(assembly.on_fragment(RecordType::Last, b"y", 0), RecordStep::Continue));
    match assembly.on_fragment(RecordType::Full, b"z", 40) {
        RecordStep::Done(Some(r)) => assert_eq!(r, b"z".to_vec()),
        _ => panic!("expected a record"),
    }
    assert_eq!(assembly.last_record_offset, 40);
}

#[test]
fn initial_block_start_skips_block_trailers() {
    assert_eq!(initial_block_start(0), 0);
    assert_eq!(initial_block_start(100), 0);
    assert_eq!(initial_block_start(BLOCK_SIZE - 3), BLOCK_SIZE);
    assert_eq!(initial_block_start(BLOCK_SIZE + 10), BLOCK_SIZE);
}

/// A log held in memory, read block by block as the log reader reads its file.
struct MemReader {
    data: Vec<u8>,
    pos: usize,
    checksum: bool,
    buffer: Vec<u8>,
    eof: bool,
    end_of_buffer_offset: u64,
    initial_offset: u64,
    assembly: RecordAssembly,
}

impl MemReader {
    fn new(data: Vec<u8>, checksum: bool, initial_offset: u64) -> Self {
        MemReader {
            data,
            pos: 0,
            checksum,
            buffer: Vec::new(),
            eof: false,
            end_of_buffer_offset: 0,
            initial_offset,
            assembly: RecordAssembly::new(initial_offset > 0, 0),
        }
    }

    fn read_block(&mut self) {
        let n = (BLOCK_SIZE as usize).min(self.data.len() - self.pos);
        self.buffer.extend_from_slice(&self.data[self.pos..self.pos + n]);
        self.pos += n;
        self.end_of_buffer_offset += self.buffer.len() as u64;
        if self.buffer.len() < BLOCK_SIZE as usize {
            self.eof = true;
        }
    }

    fn read_physical_record(&mut self) -> Result<(RecordType, Vec<u8>, u64), ReadError> {
        loop {
            let step = parse_physical_record(
                &self.buffer,
                self.eof,
                self.checksum,
                self.end_of_buffer_offset,
                self.initial_offset,
            );
            match step {
                PhysicalStep::NeedMore => {
                    self.buffer.clear();
                    self.read_block();
                }
                PhysicalStep::Drop(e) => {
                    self.buffer.clear();
                    return Err(e);
                }
                PhysicalStep::Fragment { record_type, length, offset } => {
                    let fragment = self.buffer[HEADER_SIZE..HEADER_SIZE + length].to_vec();
                    self.buffer.drain(..HEADER_SIZE + length);
                    return Ok((record_type, fragment, offset));
                }
                PhysicalStep::BeforeInitial { length } => {
                    self.buffer.drain(..HEADER_SIZE + length);
                    return Err(ReadError::BadRecord(String::new()));
                }
            }
        }
    }

    fn read_record(&mut self) -> Option<Vec<u8>> {
        self.assembly.scratch.clear();
        self.assembly.in_fragmented_record = false;
        self.assembly.prospective_record_offset = 0;
        loop {
            let step = match self.read_physical_record() {
                Ok((t, fragment, offset)) => self.assembly.on_fragment(t, &fragment, offset),
                Err(e) => self.assembly.on_error(&e),
            };
            match step {
                RecordStep::Continue => {}
                RecordStep::Done(r) => return r,
            }
        }
    }
}

/// A header with a zero checksum, the given length and type byte.
fn raw_header(len: u64, record_type: u8) -> Vec<u8> {
    vec![0, 0, 0, 0, (len & 0xff) as u8, ((len >> 8) & 0xff) as u8, record_type]
}

#[test]
fn test_unknown_record_type() {
    let mut file = raw_header(100, MAX_RECORD_TYPE + 1);
    file.extend_from_slice(&[1u8; 100]);
    let mut reader = MemReader::new(file, false, 0);
    assert!(reader.read_record().is_none());
}

#[test]
fn test_read_simple_record() {
    let data: Vec<u8> = (0..100u8).collect();
    let file = write_record(&mut Writer::new(0), &data);
    let mut reader = MemReader::new(file, false, 0);
    let record = reader.read_record().unwrap();
    for i in 0..100u8 {
        assert_eq!(i, record[i as usize]);
    }
}

#[test]
fn test_read_complex_record() {
    let size = (BLOCK_SIZE / 4) + 100;
    let mut data = Vec::new();
    for i in 0..size {
        data.extend_from_slice(&i.to_be_bytes());
    }
    let file = write_record(&mut Writer::new(0), &data);
    let mut reader = MemReader::new(file, false, 0);
    let record = reader.read_record().unwrap();
    for i in 0..size as usize {
        let mut b = [0u8; 8];
        b.copy_from_slice(&record[8 * i..8 * i + 8]);
        assert_eq!(i as u64, u64::from_be_bytes(b));
    }
}

#[test]
fn test_skip_bad_record() {
    // A fragment of unknown type, then one claiming more bytes than a block holds.
    let mut file = raw_header(100, MAX_RECORD_TYPE + 30);
    file.extend_from_slice(&[1u8; 100]);
    file.extend_from_slice(&raw_header(BLOCK_SIZE + 100, RecordType::Full.as_u8()));
    file.extend_from_slice(&[1u8; 200]);
    // A writer starting at the front of the same file writes over them.
    let data: Vec<u8> = (0..200u32).map(|i| i as u8).collect();
    let written = write_record(&mut Writer::new(0), &data);
    file[..written.len()].copy_from_slice(&written);
    let mut reader = MemReader::new(file, false, 0);
    let record = reader.read_record().unwrap();
    for i in 0..30u8 {
        assert_eq!(i, record[i as usize]);
    }
}
