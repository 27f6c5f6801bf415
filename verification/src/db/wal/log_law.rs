//! What a log holds once a writer has appended records to it, and what reading it block
//! by block gives back: the records, in order, then the end of the file.
use crate::db::wal::format::{RecordType, BLOCK_SIZE, HEADER_SIZE};
use crate::db::wal::reader::{
    error_step, fragment_step, lemma_written_fragment_reads_back, physical_step, AsmState,
    PhysicalView, ReadErrorView,
};
use crate::db::wal::writer::{fragment_type, header_bytes};
use vstd::prelude::*;

verus! {

// ---------------------------------------------------------------------------
// What the writer lays down
// ---------------------------------------------------------------------------
/// One fragment as the writer lays it down: zero bytes padding out the previous block,
/// then the header and the data.
pub struct Frag {
    pub pad: nat,
    pub t: RecordType,
    pub data: Seq<u8>,
}

/// The size of a log block, as a number.
pub open spec fn bsz() -> nat {
    BLOCK_SIZE as nat
}

/// `n` zero bytes.
pub open spec fn zeros(n: nat) -> Seq<u8> {
    Seq::new(n, |_i: int| 0u8)
}

/// The padding written before a fragment when the block offset is `off`: the rest of the
/// block when it has no room for a header, else nothing.
pub open spec fn frag_pad(off: nat) -> nat {
    if BLOCK_SIZE - off < HEADER_SIZE {
        (BLOCK_SIZE - off) as nat
    } else {
        0
    }
}

/// Where in its block a fragment's header goes when the block offset is `off`.
pub open spec fn frag_start(off: nat) -> nat {
    if BLOCK_SIZE - off < HEADER_SIZE {
        0
    } else {
        off
    }
}

/// How many data bytes a fragment started at block offset `off` can carry.
pub open spec fn frag_avail(off: nat) -> nat {
    (BLOCK_SIZE - frag_start(off) - HEADER_SIZE) as nat
}

/// How many bytes of `left` remaining ones the fragment at block offset `off` carries.
pub open spec fn frag_len(off: nat, left: nat) -> nat {
    if left < frag_avail(off) {
        left
    } else {
        frag_avail(off)
    }
}

/// The block offset after a fragment of `len` data bytes started at block offset `off`.
pub open spec fn frag_end(off: nat, len: nat) -> nat {
    (frag_start(off) + HEADER_SIZE + len) as nat
}

/// The fragments that writing `data` from block offset `off` lays down, `begin` saying
/// whether the record starts with them: as `Writer::next_fragment` plans them, until no
/// byte is left.
pub open spec fn record_frags(off: nat, data: Seq<u8>, begin: bool) -> Seq<Frag>
    decreases data.len(), BLOCK_SIZE - off,
{
    if off > BLOCK_SIZE {
        Seq::empty()
    } else {
        let len = frag_len(off, data.len());
        let f = Frag { pad: frag_pad(off), t: fragment_type(begin, data.len() == len), data: data.take(len as int) };
        if data.len() == len {
            seq![f]
        } else {
            seq![f] + record_frags(frag_end(off, len), data.skip(len as int), false)
        }
    }
}

/// The block offset after writing `data` from block offset `off`.
pub open spec fn record_end(off: nat, data: Seq<u8>, begin: bool) -> nat
    decreases data.len(), BLOCK_SIZE - off,
{
    if off > BLOCK_SIZE {
        off
    } else {
        let len = frag_len(off, data.len());
        if data.len() == len {
            frag_end(off, len)
        } else {
            record_end(frag_end(off, len), data.skip(len as int), false)
        }
    }
}

/// The fragments that writing the records `rs` from block offset `off` lays down.
pub open spec fn log_frags(off: nat, rs: Seq<Seq<u8>>) -> Seq<Frag>
    decreases rs.len(),
{
    if rs.len() == 0 {
        Seq::empty()
    } else {
        record_frags(off, rs[0], true) + log_frags(record_end(off, rs[0], true), rs.drop_first())
    }
}

/// The bytes of one fragment.
pub open spec fn frag_bytes(f: Frag) -> Seq<u8> {
    zeros(f.pad) + header_bytes(f.t, f.data) + f.data
}

/// The bytes of `fs`, one after another.
pub open spec fn frags_bytes(fs: Seq<Frag>) -> Seq<u8>
    decreases fs.len(),
{
    if fs.len() == 0 {
        Seq::empty()
    } else {
        frag_bytes(fs[0]) + frags_bytes(fs.drop_first())
    }
}

/// The log a new writer produces for the records `rs`.
pub open spec fn log_bytes(rs: Seq<Seq<u8>>) -> Seq<u8> {
    frags_bytes(log_frags(0, rs))
}

// ---------------------------------------------------------------------------
// What the reader reads
// ---------------------------------------------------------------------------
/// The reader's position: how far into the file it has read, the bytes read but not yet
/// used, and whether the last read came back short.
pub struct ReadPos {
    pub pos: nat,
    pub buf: Seq<u8>,
    pub eof: bool,
}

/// Reading the next block of `file` from `pos`: a whole block where the file holds one,
/// else what is left, which marks the end of the file.
pub open spec fn refill(file: Seq<u8>, pos: nat) -> ReadPos {
    let k: nat = if pos + BLOCK_SIZE <= file.len() {
        BLOCK_SIZE as nat
    } else if pos <= file.len() {
        (file.len() - pos) as nat
    } else {
        0
    };
    ReadPos { pos: pos + k, buf: file.subrange(pos as int, (pos + k) as int), eof: k < BLOCK_SIZE }
}

/// What one physical read gives: a fragment with its type, data and offset, or an error.
pub enum PhysRead {
    Frag(RecordType, Seq<u8>, nat),
    Error(ReadErrorView),
}

/// Acting on the outcome of looking for a fragment in the buffered bytes, for a reader
/// that starts at the beginning of the file.
pub open spec fn take_step(checksum: bool, st: ReadPos) -> (ReadPos, PhysRead) {
    match physical_step(st.buf, st.eof, checksum, st.pos, 0) {
        PhysicalView::NeedMore => (st, PhysRead::Error(ReadErrorView::Eof)),
        PhysicalView::Drop(e) => (ReadPos { buf: Seq::empty(), ..st }, PhysRead::Error(e)),
        PhysicalView::Fragment { record_type, length, offset } => (
            ReadPos { buf: st.buf.skip(HEADER_SIZE + length), ..st },
            PhysRead::Frag(record_type, st.buf.subrange(HEADER_SIZE as int, HEADER_SIZE + length), offset),
        ),
        PhysicalView::BeforeInitial { length } => (
            ReadPos { buf: st.buf.skip(HEADER_SIZE + length), ..st },
            PhysRead::Error(ReadErrorView::BadRecord(Seq::empty())),
        ),
    }
}

/// One physical read: when the buffered bytes hold no header, the buffer is dropped and
/// the next block read first. After that read the buffer holds a whole block or the end of
/// the file, so no second read is ever needed.
pub open spec fn physical_read(file: Seq<u8>, checksum: bool, st: ReadPos) -> (ReadPos, PhysRead) {
    if physical_step(st.buf, st.eof, checksum, st.pos, 0) is NeedMore {
        take_step(checksum, refill(file, st.pos))
    } else {
        take_step(checksum, st)
    }
}

/// The first `n` physical reads from `st` on.
pub open spec fn physical_reads(file: Seq<u8>, checksum: bool, st: ReadPos, n: nat) -> Seq<PhysRead>
    decreases n,
{
    if n == 0 {
        Seq::empty()
    } else {
        let (st2, r) = physical_read(file, checksum, st);
        seq![r] + physical_reads(file, checksum, st2, (n - 1) as nat)
    }
}

/// Where a reader stands once it has used up the first `p` bytes of `file`, reading
/// block by block from the start: at a block boundary with nothing buffered, or with the
/// rest of the current block (or of the file) buffered.
pub open spec fn reader_at(file: Seq<u8>, p: nat) -> ReadPos {
    if p % bsz() == 0 {
        ReadPos { pos: p, buf: Seq::empty(), eof: false }
    } else {
        let bs = (p - p % bsz()) as nat;
        let end: nat = if bs + BLOCK_SIZE <= file.len() {
            (bs + BLOCK_SIZE) as nat
        } else {
            file.len()
        };
        ReadPos { pos: end, buf: file.subrange(p as int, end as int), eof: end - bs < BLOCK_SIZE }
    }
}

/// `fs` are fragments the writer lays down from block offset `off` on.
pub open spec fn frags_valid(off: nat, fs: Seq<Frag>) -> bool
    decreases fs.len(),
{
    if fs.len() == 0 {
        true
    } else {
        &&& off <= BLOCK_SIZE
        &&& fs[0].pad == frag_pad(off)
        &&& fs[0].data.len() <= frag_avail(off)
        &&& fs[0].t != RecordType::Zero
        &&& frags_valid(frag_end(off, fs[0].data.len()), fs.drop_first())
    }
}

/// Byte position `p` in the log lies at block offset `off`.
pub open spec fn at_offset(p: nat, off: nat) -> bool {
    off <= BLOCK_SIZE && (p % bsz() == off || (off == BLOCK_SIZE && p % bsz() == 0))
}

/// The physical reads `reads` give the fragments `fs` in order, each with its type and
/// data, then the end of the file.
pub open spec fn reads_match(reads: Seq<PhysRead>, fs: Seq<Frag>) -> bool {
    &&& reads.len() == fs.len() + 1
    &&& reads[fs.len() as int] == PhysRead::Error(ReadErrorView::Eof)
    &&& forall|i: int|
        0 <= i < fs.len() ==> (#[trigger] reads[i] matches PhysRead::Frag(t, d, _) && t == fs[i].t && d
            == fs[i].data)
}

/// A block read at a block boundary `q` where a fragment starts gives that fragment.
proof fn lemma_read_at_boundary(file: Seq<u8>, checksum: bool, q: nat, t: RecordType, d: Seq<u8>)
    requires
        q % bsz() == 0,
        HEADER_SIZE + d.len() <= BLOCK_SIZE,
        q + HEADER_SIZE + d.len() <= file.len(),
        file.subrange(q as int, q + HEADER_SIZE + d.len()) == header_bytes(t, d) + d,
        t != RecordType::Zero,
    ensures
        take_step(checksum, refill(file, q)) == (
            reader_at(file, (q + HEADER_SIZE + d.len()) as nat),
            PhysRead::Frag(t, d, q),
        ),
{
    let st = refill(file, q);
    let n = (HEADER_SIZE + d.len()) as nat;
    let k = st.buf.len();
    assert(k >= n);
    let rest = st.buf.skip(n as int);
    assert(st.buf =~= header_bytes(t, d) + d + rest);
    lemma_written_fragment_reads_back(t, d, rest, st.eof, checksum, st.pos, 0);
    assert(st.buf.subrange(HEADER_SIZE as int, HEADER_SIZE + d.len()) =~= d);
    let p2 = q + n;
    vstd::arithmetic::div_mod::lemma_mod_adds(q as int, n as int, BLOCK_SIZE as int);
    if n == BLOCK_SIZE {
        vstd::arithmetic::div_mod::lemma_mod_self_0(BLOCK_SIZE as int);
        assert(rest =~= Seq::<u8>::empty());
    } else {
        assert(p2 % bsz() == n);
        assert(rest =~= file.subrange(p2 as int, st.pos as int));
    }
}

/// At a block boundary, or before padding that runs to the end of the block, a physical
/// read reads the next block first.
proof fn lemma_read_refills(file: Seq<u8>, checksum: bool, p: nat, q: nat)
    requires
        q % bsz() == 0,
        p <= q < p + HEADER_SIZE,
        q <= file.len(),
        p % bsz() == 0 ==> p == q,
        p % bsz() != 0 ==> q == p - p % bsz() + bsz(),
    ensures
        physical_read(file, checksum, reader_at(file, p)) == take_step(checksum, refill(file, q)),
{
    let st = reader_at(file, p);
    if p % bsz() != 0 {
        assert(st.pos == q);
        assert(st.buf.len() < HEADER_SIZE);
        assert(!st.eof);
    }
    assert(physical_step(st.buf, st.eof, checksum, st.pos, 0) is NeedMore);
}

/// Where a fragment starts inside a block with the rest of it buffered, a physical read
/// gives it directly.
proof fn lemma_read_in_block(file: Seq<u8>, checksum: bool, p: nat, t: RecordType, d: Seq<u8>)
    requires
        p % bsz() != 0,
        p % bsz() + HEADER_SIZE + d.len() <= bsz(),
        p + HEADER_SIZE + d.len() <= file.len(),
        file.subrange(p as int, p + HEADER_SIZE + d.len()) == header_bytes(t, d) + d,
        t != RecordType::Zero,
    ensures
        physical_read(file, checksum, reader_at(file, p)) == (
            reader_at(file, (p + HEADER_SIZE + d.len()) as nat),
            PhysRead::Frag(t, d, p),
        ),
{
    let n = (HEADER_SIZE + d.len()) as nat;
    let r = p % bsz();
    let st = reader_at(file, p);
    let bs = (p - r) as nat;
    assert(p + n <= bs + BLOCK_SIZE);
    assert(st.pos >= p + n);
    let rest = st.buf.skip(n as int);
    assert(st.buf =~= header_bytes(t, d) + d + rest);
    lemma_written_fragment_reads_back(t, d, rest, st.eof, checksum, st.pos, 0);
    assert(st.buf.subrange(HEADER_SIZE as int, HEADER_SIZE + d.len()) =~= d);
    vstd::arithmetic::div_mod::lemma_fundamental_div_mod(p as int, BLOCK_SIZE as int);
    if p + n == bs + BLOCK_SIZE {
        vstd::arithmetic::div_mod::lemma_mod_multiples_basic((bs / bsz() + 1) as int, BLOCK_SIZE as int);
        assert(rest =~= Seq::<u8>::empty());
    } else {
        vstd::arithmetic::div_mod::lemma_mod_adds(p as int, n as int, BLOCK_SIZE as int);
        assert((p + n) % bsz() == r + n);
        assert(rest =~= file.subrange((p + n) as int, st.pos as int));
    }
}

/// The padding before a fragment runs to the end of the block, so its header starts the
/// next block, or the fragment starts in the block at the writer's offset.
proof fn lemma_frag_position(p: nat, off: nat, f: Frag)
    requires
        at_offset(p, off),
        f.pad == frag_pad(off),
        f.data.len() <= frag_avail(off),
    ensures
        (p + f.pad) % bsz() == frag_start(off),
        BLOCK_SIZE - off < HEADER_SIZE ==> f.pad < HEADER_SIZE && (p % bsz() == 0 ==> f.pad == 0)
            && (p % bsz() != 0 ==> p + f.pad == p - p % bsz() + bsz()),
        at_offset(p + frag_bytes(f).len(), frag_end(off, f.data.len())),
        frag_bytes(f).len() == f.pad + HEADER_SIZE + f.data.len(),
{
    let n = (HEADER_SIZE + f.data.len()) as nat;
    let r = p % bsz();
    vstd::arithmetic::div_mod::lemma_fundamental_div_mod(p as int, BLOCK_SIZE as int);
    vstd::arithmetic::div_mod::lemma_mod_bound(p as int, BLOCK_SIZE as int);
    let q = p + f.pad;
    if BLOCK_SIZE - off < HEADER_SIZE {
        if off == BLOCK_SIZE {
            assert(f.pad == 0);
        } else {
            assert(r == off);
            vstd::arithmetic::div_mod::lemma_mod_multiples_basic((p / bsz() + 1) as int, BLOCK_SIZE as int);
            assert(q == (p / bsz() + 1) * bsz());
        }
        assert(q % bsz() == 0);
        vstd::arithmetic::div_mod::lemma_mod_adds(q as int, n as int, BLOCK_SIZE as int);
        if n == BLOCK_SIZE {
            vstd::arithmetic::div_mod::lemma_mod_self_0(BLOCK_SIZE as int);
        }
    } else {
        assert(f.pad == 0);
        assert(r == off) by {
            if off == BLOCK_SIZE {
                assert(false);
            }
        }
        vstd::arithmetic::div_mod::lemma_mod_adds(p as int, n as int, BLOCK_SIZE as int);
        if r + n == BLOCK_SIZE {
            vstd::arithmetic::div_mod::lemma_mod_self_0(BLOCK_SIZE as int);
        }
    }
}

/// Reading at byte `p`, block offset `off`, where the writer laid the fragment `f` down,
/// gives that fragment and leaves the reader just past it.
proof fn lemma_read_frag(file: Seq<u8>, checksum: bool, p: nat, off: nat, f: Frag)
    requires
        at_offset(p, off),
        f.pad == frag_pad(off),
        f.data.len() <= frag_avail(off),
        f.t != RecordType::Zero,
        p + frag_bytes(f).len() <= file.len(),
        file.subrange(p as int, (p + frag_bytes(f).len()) as int) == frag_bytes(f),
    ensures
        physical_read(file, checksum, reader_at(file, p)).0 == reader_at(file, p + frag_bytes(f).len()),
        physical_read(file, checksum, reader_at(file, p)).1 matches PhysRead::Frag(t, d, _) && t == f.t
            && d == f.data,
        at_offset(p + frag_bytes(f).len(), frag_end(off, f.data.len())),
{
    let d = f.data;
    let n = (HEADER_SIZE + d.len()) as nat;
    let q = p + f.pad;
    let fb = frag_bytes(f);
    lemma_frag_position(p, off, f);
    assert(file.subrange(q as int, (q + n) as int) =~= fb.subrange(f.pad as int, fb.len() as int));
    assert(fb.subrange(f.pad as int, fb.len() as int) =~= header_bytes(f.t, d) + d);
    if q % bsz() == 0 {
        if p % bsz() != 0 {
            assert(BLOCK_SIZE - off < HEADER_SIZE);
        }
        lemma_read_refills(file, checksum, p, q);
        lemma_read_at_boundary(file, checksum, q, f.t, d);
    } else {
        assert(f.pad == 0);
        lemma_read_in_block(file, checksum, p, f.t, d);
    }
}

/// At the end of the file a physical read reports the end of the file.
proof fn lemma_read_eof(file: Seq<u8>, checksum: bool)
    ensures
        physical_read(file, checksum, reader_at(file, file.len())).1 == PhysRead::Error(ReadErrorView::Eof),
{
    let p = file.len();
    let st = reader_at(file, p);
    if p % bsz() == 0 {
        let st2 = refill(file, p);
        assert(st2.buf.len() == 0);
    } else {
        vstd::arithmetic::div_mod::lemma_fundamental_div_mod(p as int, BLOCK_SIZE as int);
        vstd::arithmetic::div_mod::lemma_mod_bound(p as int, BLOCK_SIZE as int);
        assert(st.buf.len() == 0);
        assert(st.eof);
    }
}

/// Reading, from byte `p` at block offset `off`, a file whose rest is the fragments `fs`
/// the writer laid down gives those fragments in order, then the end of the file.
proof fn lemma_read_frags(file: Seq<u8>, checksum: bool, p: nat, off: nat, fs: Seq<Frag>)
    requires
        frags_valid(off, fs),
        at_offset(p, off),
        file.len() == p + frags_bytes(fs).len(),
        file.subrange(p as int, file.len() as int) == frags_bytes(fs),
    ensures
        reads_match(physical_reads(file, checksum, reader_at(file, p), fs.len() + 1), fs),
    decreases fs.len(),
{
    let reads = physical_reads(file, checksum, reader_at(file, p), fs.len() + 1);
    if fs.len() == 0 {
        assert(p == file.len());
        lemma_read_eof(file, checksum);
        reveal_with_fuel(physical_reads, 2);
        assert(reads.len() == 1);
    } else {
        let f = fs[0];
        let fb = frag_bytes(f);
        let rest = fs.drop_first();
        assert(frags_bytes(fs) == fb + frags_bytes(rest));
        assert(file.subrange(p as int, (p + fb.len()) as int) =~= fb) by {
            assert(file.subrange(p as int, (p + fb.len()) as int) =~= frags_bytes(fs).subrange(0, fb.len() as int));
        }
        lemma_read_frag(file, checksum, p, off, f);
        let p2 = p + fb.len();
        assert(file.subrange(p2 as int, file.len() as int) =~= frags_bytes(rest)) by {
            assert(file.subrange(p2 as int, file.len() as int) =~= frags_bytes(fs).subrange(
                fb.len() as int,
                frags_bytes(fs).len() as int,
            ));
        }
        lemma_read_frags(file, checksum, p2, frag_end(off, f.data.len()), rest);
        let tail = physical_reads(file, checksum, reader_at(file, p2), rest.len() + 1);
        assert(reads == seq![physical_read(file, checksum, reader_at(file, p)).1] + tail);
        assert forall|i: int| 0 <= i < fs.len() implies (#[trigger] reads[i] matches PhysRead::Frag(t, d, _)
            && t == fs[i].t && d == fs[i].data) by {
            if i > 0 {
                assert(reads[i] == tail[i - 1]);
                assert(fs[i] == rest[i - 1]);
            }
        }
        assert(reads[fs.len() as int] == tail[rest.len() as int]);
    }
}

/// The block offset after the fragments `fs` laid down from block offset `off`.
pub open spec fn frags_end(off: nat, fs: Seq<Frag>) -> nat
    decreases fs.len(),
{
    if fs.len() == 0 {
        off
    } else {
        frags_end(frag_end(off, fs[0].data.len()), fs.drop_first())
    }
}

proof fn lemma_frags_bytes_append(a: Seq<Frag>, b: Seq<Frag>)
    ensures
        frags_bytes(a + b) == frags_bytes(a) + frags_bytes(b),
    decreases a.len(),
{
    if a.len() == 0 {
        assert(a + b =~= b);
    } else {
        assert((a + b).drop_first() =~= a.drop_first() + b);
        lemma_frags_bytes_append(a.drop_first(), b);
        assert(frags_bytes(a) + frags_bytes(b) =~= frag_bytes(a[0]) + (frags_bytes(a.drop_first()) + frags_bytes(b)));
    }
}

proof fn lemma_frags_valid_append(off: nat, a: Seq<Frag>, b: Seq<Frag>)
    requires
        frags_valid(off, a),
        frags_valid(frags_end(off, a), b),
    ensures
        frags_valid(off, a + b),
        frags_end(off, a + b) == frags_end(frags_end(off, a), b),
    decreases a.len(),
{
    if a.len() == 0 {
        assert(a + b =~= b);
    } else {
        assert((a + b).drop_first() =~= a.drop_first() + b);
        lemma_frags_valid_append(frag_end(off, a[0].data.len()), a.drop_first(), b);
    }
}

/// A fragment the writer plans never has type zero.
proof fn lemma_fragment_type_not_zero(begin: bool, end: bool)
    ensures
        fragment_type(begin, end) != RecordType::Zero,
{
}

/// The fragments of one record are laid down as the writer plans them and end where the
/// record ends.
proof fn lemma_record_frags_valid(off: nat, data: Seq<u8>, begin: bool)
    requires
        off <= BLOCK_SIZE,
    ensures
        frags_valid(off, record_frags(off, data, begin)),
        frags_end(off, record_frags(off, data, begin)) == record_end(off, data, begin),
        record_end(off, data, begin) <= BLOCK_SIZE,
    decreases data.len(), BLOCK_SIZE - off,
{
    let len = frag_len(off, data.len());
    let fs = record_frags(off, data, begin);
    lemma_fragment_type_not_zero(begin, data.len() == len);
    let e = frag_end(off, len);
    assert(e <= BLOCK_SIZE);
    assert(len <= data.len());
    assert(fs[0].data.len() == len);
    assert(fs[0].pad == frag_pad(off));
    assert(fs[0].t != RecordType::Zero);
    if data.len() == len {
        assert(fs.drop_first() =~= Seq::<Frag>::empty());
        assert(frags_valid(e, fs.drop_first()));
        assert(frags_end(e, fs.drop_first()) == e);
    } else {
        lemma_record_frags_valid(e, data.skip(len as int), false);
        assert(fs.drop_first() =~= record_frags(e, data.skip(len as int), false));
    }
}

/// The fragments of a log are laid down as the writer plans them.
proof fn lemma_log_frags_valid(off: nat, rs: Seq<Seq<u8>>)
    requires
        off <= BLOCK_SIZE,
    ensures
        frags_valid(off, log_frags(off, rs)),
    decreases rs.len(),
{
    if rs.len() > 0 {
        lemma_record_frags_valid(off, rs[0], true);
        let e = record_end(off, rs[0], true);
        lemma_log_frags_valid(e, rs.drop_first());
        lemma_frags_valid_append(off, record_frags(off, rs[0], true), log_frags(e, rs.drop_first()));
    }
}

/// Reading the log a new writer produced for `rs` gives its fragments in order, then the
/// end of the file.
proof fn lemma_log_physical(rs: Seq<Seq<u8>>, checksum: bool)
    ensures
        reads_match(
            physical_reads(log_bytes(rs), checksum, reader_at(log_bytes(rs), 0), log_frags(0, rs).len() + 1),
            log_frags(0, rs),
        ),
{
    let file = log_bytes(rs);
    lemma_log_frags_valid(0, rs);
    assert(file.subrange(0, file.len() as int) =~= file);
    lemma_read_frags(file, checksum, 0, 0, log_frags(0, rs));
}

// ---------------------------------------------------------------------------
// Putting the records back together
// ---------------------------------------------------------------------------
/// The search as `read_record` starts it: no partial record.
pub open spec fn restart(s: AsmState) -> AsmState {
    AsmState { in_fragmented_record: false, prospective_record_offset: 0, scratch: Seq::empty(), ..s }
}

/// The search of a new reader that starts at the beginning of the file.
pub open spec fn new_search() -> AsmState {
    AsmState {
        in_fragmented_record: false,
        prospective_record_offset: 0,
        re_syncing: false,
        last_record_offset: 0,
        scratch: Seq::empty(),
    }
}

/// What successive calls of `read_record` return, given the physical reads `reads` and
/// the search `s` of the call in progress: each record as it completes, the next call
/// starting afresh, and `None` at the end of the file.
pub open spec fn assemble(reads: Seq<PhysRead>, s: AsmState) -> Seq<Option<Seq<u8>>>
    decreases reads.len(),
{
    if reads.len() == 0 {
        Seq::empty()
    } else {
        match reads[0] {
            PhysRead::Frag(t, d, o) => {
                let (s2, out) = fragment_step(s, t, d, o);
                match out {
                    Some(r) => seq![Some(r)] + assemble(reads.drop_first(), restart(s2)),
                    None => assemble(reads.drop_first(), s2),
                }
            },
            PhysRead::Error(e) => {
                let (s2, stop) = error_step(s, e);
                if stop {
                    seq![None]
                } else {
                    assemble(reads.drop_first(), s2)
                }
            },
        }
    }
}

/// The first reads of `reads` give the fragments `fs`, each with its type and data.
pub open spec fn prefix_match(reads: Seq<PhysRead>, fs: Seq<Frag>) -> bool {
    &&& reads.len() >= fs.len()
    &&& forall|i: int|
        0 <= i < fs.len() ==> (#[trigger] reads[i] matches PhysRead::Frag(t, d, _) && t == fs[i].t && d
            == fs[i].data)
}

proof fn lemma_prefix_match_split(reads: Seq<PhysRead>, a: Seq<Frag>, b: Seq<Frag>)
    requires
        prefix_match(reads, a + b),
    ensures
        prefix_match(reads, a),
        prefix_match(reads.skip(a.len() as int), b),
{
    assert forall|i: int| 0 <= i < a.len() implies (#[trigger] reads[i] matches PhysRead::Frag(t, d, _)
        && t == a[i].t && d == a[i].data) by {
        assert((a + b)[i] == a[i]);
    }
    assert forall|i: int| 0 <= i < b.len() implies (#[trigger] reads.skip(a.len() as int)[i] matches PhysRead::Frag(
        t,
        d,
        _,
    ) && t == b[i].t && d == b[i].data) by {
        assert((a + b)[a.len() + i] == b[i]);
        assert(reads.skip(a.len() as int)[i] == reads[a.len() + i]);
    }
}

/// The rest of a record that continues past its first fragment comes back joined to what
/// the search holds, as one record.
proof fn lemma_assemble_rest(off: nat, data: Seq<u8>, reads: Seq<PhysRead>, s: AsmState)
    requires
        off <= BLOCK_SIZE,
        s.in_fragmented_record,
        !s.re_syncing,
        prefix_match(reads, record_frags(off, data, false)),
        reads.len() > record_frags(off, data, false).len(),
    ensures
        exists|s2: AsmState|
            !s2.re_syncing && assemble(reads, s) == seq![Some(s.scratch + data)] + assemble(
                reads.skip(record_frags(off, data, false).len() as int),
                restart(s2),
            ),
    decreases data.len(), BLOCK_SIZE - off,
{
    let fs = record_frags(off, data, false);
    let len = frag_len(off, data.len());
    let piece = data.take(len as int);
    assert(len <= data.len());
    assert(reads[0] matches PhysRead::Frag(t, d, _) && t == fs[0].t && d == piece);
    let o = match reads[0] {
        PhysRead::Frag(_, _, o) => o,
        _ => 0,
    };
    if data.len() == len {
        assert(fs[0].t == RecordType::Last);
        let (s2, out) = fragment_step(s, RecordType::Last, piece, o);
        assert(piece =~= data);
        assert(out == Some(s.scratch + data));
        assert(reads.drop_first() =~= reads.skip(1));
        assert(!s2.re_syncing);
        assert(assemble(reads, s) == seq![Some(s.scratch + data)] + assemble(reads.skip(fs.len() as int), restart(s2)));
    } else {
        assert(fs[0].t == RecordType::Middle);
        let (s1, out) = fragment_step(s, RecordType::Middle, piece, o);
        assert(out is None);
        let e = frag_end(off, len);
        let rest = data.skip(len as int);
        let fs2 = record_frags(e, rest, false);
        assert(fs =~= seq![fs[0]] + fs2);
        lemma_prefix_match_split(reads, seq![fs[0]], fs2);
        assert(reads.skip(1) =~= reads.drop_first());
        lemma_assemble_rest(e, rest, reads.drop_first(), s1);
        assert(s1.scratch + rest =~= s.scratch + data);
        assert(reads.drop_first().skip(fs2.len() as int) =~= reads.skip(fs.len() as int));
        let s3 = choose|s3: AsmState|
            !s3.re_syncing && assemble(reads.drop_first(), s1) == seq![Some(s1.scratch + rest)] + assemble(
                reads.drop_first().skip(fs2.len() as int),
                restart(s3),
            );
        assert(assemble(reads, s) == assemble(reads.drop_first(), s1));
        assert(assemble(reads, s) == seq![Some(s.scratch + data)] + assemble(reads.skip(fs.len() as int), restart(s3)));
    }
}

/// A record's fragments, read by a search that starts afresh, come back as that record,
/// whether or not the search is resynchronising: a record's first fragment ends the
/// resynchronisation.
proof fn lemma_assemble_record(off: nat, data: Seq<u8>, reads: Seq<PhysRead>, s: AsmState)
    requires
        off <= BLOCK_SIZE,
        prefix_match(reads, record_frags(off, data, true)),
        reads.len() > record_frags(off, data, true).len(),
    ensures
        exists|s2: AsmState|
            !s2.re_syncing && assemble(reads, restart(s)) == seq![Some(data)] + assemble(
                reads.skip(record_frags(off, data, true).len() as int),
                restart(s2),
            ),
{
    let fs = record_frags(off, data, true);
    let len = frag_len(off, data.len());
    let piece = data.take(len as int);
    assert(len <= data.len());
    assert(reads[0] matches PhysRead::Frag(t, d, _) && t == fs[0].t && d == piece);
    let o = match reads[0] {
        PhysRead::Frag(_, _, o) => o,
        _ => 0,
    };
    let c = restart(s);
    if data.len() == len {
        assert(fs[0].t == RecordType::Full);
        let (s2, out) = fragment_step(c, RecordType::Full, piece, o);
        assert(piece =~= data);
        assert(reads.drop_first() =~= reads.skip(1));
        assert(!s2.re_syncing);
    } else {
        assert(fs[0].t == RecordType::First);
        let (s1, out) = fragment_step(c, RecordType::First, piece, o);
        assert(out is None);
        assert(s1.scratch =~= piece);
        let e = frag_end(off, len);
        let rest = data.skip(len as int);
        let fs2 = record_frags(e, rest, false);
        assert(fs =~= seq![fs[0]] + fs2);
        lemma_prefix_match_split(reads, seq![fs[0]], fs2);
        assert(reads.skip(1) =~= reads.drop_first());
        lemma_assemble_rest(e, rest, reads.drop_first(), s1);
        assert(s1.scratch + rest =~= data);
        assert(reads.drop_first().skip(fs2.len() as int) =~= reads.skip(fs.len() as int));
    }
}

/// The fragments of a log, then the end of the file, come back as its records, then
/// `None`.
proof fn lemma_assemble_log(off: nat, rs: Seq<Seq<u8>>, reads: Seq<PhysRead>, s: AsmState)
    requires
        off <= BLOCK_SIZE,
        !s.re_syncing,
        reads_match(reads, log_frags(off, rs)),
    ensures
        assemble(reads, restart(s)) == rs.map_values(|r: Seq<u8>| Some(r)).push(None),
    decreases rs.len(),
{
    let fs = log_frags(off, rs);
    if rs.len() == 0 {
        assert(reads[0] == PhysRead::Error(ReadErrorView::Eof));
        assert(rs.map_values(|r: Seq<u8>| Some(r)).push(None) =~= seq![None::<Seq<u8>>]);
    } else {
        let a = record_frags(off, rs[0], true);
        let e = record_end(off, rs[0], true);
        let b = log_frags(e, rs.drop_first());
        assert(fs == a + b);
        assert(prefix_match(reads, a + b));
        lemma_prefix_match_split(reads, a, b);
        lemma_assemble_record(off, rs[0], reads, s);
        let s2 = choose|s2: AsmState|
            !s2.re_syncing && assemble(reads, restart(s)) == seq![Some(rs[0])] + assemble(
                reads.skip(a.len() as int),
                restart(s2),
            );
        lemma_record_frags_valid(off, rs[0], true);
        let rest_reads = reads.skip(a.len() as int);
        assert(rest_reads[b.len() as int] == reads[fs.len() as int]);
        assert(reads_match(rest_reads, b));
        lemma_assemble_log(e, rs.drop_first(), rest_reads, s2);
        assert(rs.map_values(|r: Seq<u8>| Some(r)).push(None) =~= seq![Some(rs[0])] + rs.drop_first().map_values(
            |r: Seq<u8>| Some(r),
        ).push(None));
    }
}

/// Law: the log that a new writer produces for the records `rs`, read from its start by a
/// new reader, block by block, gives back every record, whole and in order, then the end
/// of the file; records split across blocks are put back together and the padding at the
/// end of a block is passed over.
pub proof fn lemma_log_reads_back(rs: Seq<Seq<u8>>, checksum: bool)
    ensures
        assemble(
            physical_reads(log_bytes(rs), checksum, reader_at(log_bytes(rs), 0), log_frags(0, rs).len() + 1),
            restart(new_search()),
        ) == rs.map_values(|r: Seq<u8>| Some(r)).push(None),
{
    lemma_log_physical(rs, checksum);
    lemma_assemble_log(
        0,
        rs,
        physical_reads(log_bytes(rs), checksum, reader_at(log_bytes(rs), 0), log_frags(0, rs).len() + 1),
        new_search(),
    );
}

/// Law: a reader that is resynchronising (it started inside the log) and meets the
/// fragments of a whole record, starting with its first fragment, returns that record.
pub proof fn lemma_resync_returns_next_record(off: nat, data: Seq<u8>, reads: Seq<PhysRead>, s: AsmState)
    requires
        off <= BLOCK_SIZE,
        s.re_syncing,
        prefix_match(reads, record_frags(off, data, true)),
        reads.len() > record_frags(off, data, true).len(),
    ensures
        assemble(reads, restart(s)).len() >= 1,
        assemble(reads, restart(s))[0] == Some(data),
{
    lemma_assemble_record(off, data, reads, s);
}

/// Law: taking in a record's first fragment, or a whole record, gives the same whether or
/// not the search is resynchronising, and leaves it no longer resynchronising: the first
/// fragment starts the record with the fragment's data, and a whole record is returned.
/// While resynchronising, the middle and last fragments of a record begun before the
/// initial offset are passed over, the last one ending the resynchronisation.
pub proof fn lemma_record_start_ends_resync(s: AsmState, fragment: Seq<u8>, offset: nat)
    ensures
        fragment_step(s, RecordType::First, fragment, offset) == fragment_step(
            AsmState { re_syncing: false, ..s },
            RecordType::First,
            fragment,
            offset,
        ),
        fragment_step(s, RecordType::First, fragment, offset).0.in_fragmented_record,
        !fragment_step(s, RecordType::First, fragment, offset).0.re_syncing,
        fragment_step(s, RecordType::First, fragment, offset).0.scratch == s.scratch + fragment,
        fragment_step(s, RecordType::First, fragment, offset).1 is None,
        fragment_step(s, RecordType::Full, fragment, offset).1 == Some(fragment),
        !fragment_step(s, RecordType::Full, fragment, offset).0.re_syncing,
        s.re_syncing ==> fragment_step(s, RecordType::Middle, fragment, offset) == (s, None::<Seq<u8>>),
        s.re_syncing ==> fragment_step(s, RecordType::Last, fragment, offset).1 is None
            && !fragment_step(s, RecordType::Last, fragment, offset).0.re_syncing
            && fragment_step(s, RecordType::Last, fragment, offset).0.scratch == s.scratch,
{
}

} // verus!
