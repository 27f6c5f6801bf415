//! Decoding an encoded version edit gives the edit back.
use crate::db::sorted_pairs::sorted_pairs;
use crate::db::version_edit::{
    comparator_bytes, compact_pointer_bytes, compact_pointers_bytes, deleted_file_bytes,
    deleted_files_bytes, deleted_files_in_order, edit_bytes, new_file_bytes, new_files_bytes,
    optional_u64_bytes, spec_decode_field, tag_of_byte, spec_decode_from, spec_get_internal_key, spec_get_level,
    tag_code, EditModel, FileMetaModel, Tag, VersionEdit, NUM_LEVELS,
};
use crate::util::coding::{
    length_prefixed_bytes, lemma_length_prefixed_roundtrip, lemma_varint32_roundtrip,
    lemma_varint64_roundtrip, varint_bytes,
};
use vstd::prelude::*;
use vstd::utf8::{encode_utf8, encode_utf8_decode_utf8, encode_utf8_valid_utf8};

verus! {

/// A level that decoding accepts.
pub open spec fn valid_level(l: i32) -> bool {
    0 <= l < NUM_LEVELS
}

/// A key that decoding accepts: non-empty, its length fitting in 32 bits.
pub open spec fn valid_key(k: Seq<u8>) -> bool {
    0 < k.len() < 0x1_0000_0000
}

/// The edits whose encoding decodes back to them: every level below the number of
/// levels, every key non-empty, and every length within 32 bits.
pub open spec fn encodable_edit(m: EditModel) -> bool {
    &&& m.comparator matches Some(c) ==> encode_utf8(c).len() < 0x1_0000_0000
    &&& forall|i: int|
        0 <= i < m.compact_pointers.len() ==> valid_level(#[trigger] m.compact_pointers[i].0)
            && valid_key(m.compact_pointers[i].1)
    &&& forall|p: (i32, u64)| #[trigger] m.deleted_files.contains(p) ==> valid_level(p.0)
    &&& forall|i: int|
        0 <= i < m.new_files.len() ==> valid_level(#[trigger] m.new_files[i].0) && valid_key(
            m.new_files[i].1.smallest,
        ) && valid_key(m.new_files[i].1.largest)
}

/// A new file as decoding reports it: with no references and no allowed seeks.
pub open spec fn fresh_file(f: (i32, FileMetaModel)) -> (i32, FileMetaModel) {
    (f.0, FileMetaModel { refs: 0, allowed_seeks: 0, ..f.1 })
}

/// An edit as decoding reports it.
pub open spec fn decoded_edit(m: EditModel) -> EditModel {
    EditModel { new_files: m.new_files.map_values(|f: (i32, FileMetaModel)| fresh_file(f)), ..m }
}

proof fn lemma_step(src: Seq<u8>, pos: nat, m: EditModel, t: Tag, body: Seq<u8>, m2: EditModel)
    requires
        pos + varint_bytes(tag_code(t) as nat).len() + body.len() <= src.len(),
        src.subrange(pos as int, (pos + varint_bytes(tag_code(t) as nat).len() + body.len()) as int)
            == varint_bytes(tag_code(t) as nat) + body,
        spec_decode_field(t, src.skip((pos + varint_bytes(tag_code(t) as nat).len()) as int), m) == Ok::<
            (nat, EditModel),
            Seq<char>,
        >((body.len(), m2)),
    ensures
        spec_decode_from(src, pos, m) == spec_decode_from(
            src,
            pos + varint_bytes(tag_code(t) as nat).len() + body.len(),
            m2,
        ),
{
    reveal(spec_decode_from);
    let vb = varint_bytes(tag_code(t) as nat);
    let rest = src.skip((pos + vb.len()) as int);
    assert(src.skip(pos as int) =~= vb + rest) by {
        assert forall|i: int| 0 <= i < vb.len() implies src.skip(pos as int)[i] == vb[i] by {
            assert(src.subrange(pos as int, (pos + vb.len() + body.len()) as int)[i] == src[pos + i]);
        }
    }
    lemma_varint32_roundtrip(tag_code(t), rest);
    assert(tag_code(t) % 256 == tag_code(t));
    assert(tag_of_byte((tag_code(t) % 256) as u8) == Some(t));
}

/// The fields of a varint64 entry decode as written.
proof fn lemma_u64_field(t: Tag, x: u64, rest: Seq<u8>, m: EditModel)
    requires
        t == Tag::LogNumber || t == Tag::NextFileNumber || t == Tag::LastSequence || t
            == Tag::PrevLogNumber,
    ensures
        spec_decode_field(t, varint_bytes(x as nat) + rest, m) == Ok::<(nat, EditModel), Seq<char>>(
            (
                varint_bytes(x as nat).len(),
                if t == Tag::LogNumber {
                    EditModel { log_number: Some(x), ..m }
                } else if t == Tag::NextFileNumber {
                    EditModel { next_file_number: Some(x), ..m }
                } else if t == Tag::PrevLogNumber {
                    EditModel { prev_log_number: Some(x), ..m }
                } else {
                    EditModel { last_sequence: Some(x), ..m }
                },
            ),
        ),
{
    lemma_varint64_roundtrip(x, rest);
}

proof fn lemma_level_roundtrip(l: i32, rest: Seq<u8>)
    requires
        valid_level(l),
    ensures
        spec_get_level(varint_bytes((l as u32) as nat) + rest) == Some(
            (varint_bytes((l as u32) as nat).len(), l as u32),
        ),
        (l as u32) as i32 == l,
{
    lemma_varint32_roundtrip(l as u32, rest);
}

proof fn lemma_key_roundtrip(k: Seq<u8>, rest: Seq<u8>)
    requires
        valid_key(k),
    ensures
        spec_get_internal_key(length_prefixed_bytes(k) + rest) == Some(
            (length_prefixed_bytes(k).len(), k),
        ),
{
    lemma_length_prefixed_roundtrip(k, rest);
}

proof fn lemma_compact_pointer_field(cp: (i32, Seq<u8>), rest: Seq<u8>, m: EditModel)
    requires
        valid_level(cp.0),
        valid_key(cp.1),
    ensures
        ({
            let body = varint_bytes((cp.0 as u32) as nat) + length_prefixed_bytes(cp.1);
            spec_decode_field(Tag::CompactPointer, body + rest, m) == Ok::<
                (nat, EditModel),
                Seq<char>,
            >((body.len(), EditModel { compact_pointers: m.compact_pointers.push(cp), ..m }))
        }),
{
    let a = varint_bytes((cp.0 as u32) as nat);
    let b = length_prefixed_bytes(cp.1);
    assert((a + b) + rest =~= a + (b + rest));
    lemma_level_roundtrip(cp.0, b + rest);
    assert((a + (b + rest)).skip(a.len() as int) =~= b + rest);
    lemma_key_roundtrip(cp.1, rest);
}

proof fn lemma_deleted_file_field(f: (i32, u64), rest: Seq<u8>, m: EditModel)
    requires
        valid_level(f.0),
    ensures
        ({
            let body = varint_bytes((f.0 as u32) as nat) + varint_bytes(f.1 as nat);
            spec_decode_field(Tag::DeleteFile, body + rest, m) == Ok::<(nat, EditModel), Seq<char>>(
                (body.len(), EditModel { deleted_files: m.deleted_files.insert(f), ..m }),
            )
        }),
{
    let a = varint_bytes((f.0 as u32) as nat);
    let b = varint_bytes(f.1 as nat);
    assert((a + b) + rest =~= a + (b + rest));
    lemma_level_roundtrip(f.0, b + rest);
    assert((a + (b + rest)).skip(a.len() as int) =~= b + rest);
    lemma_varint64_roundtrip(f.1, rest);
}

#[verifier::rlimit(50)]
proof fn lemma_new_file_field(f: (i32, FileMetaModel), rest: Seq<u8>, m: EditModel)
    requires
        valid_level(f.0),
        valid_key(f.1.smallest),
        valid_key(f.1.largest),
    ensures
        ({
            let body = new_file_bytes(f).skip(varint_bytes(7).len() as int);
            spec_decode_field(Tag::NewFile, body + rest, m) == Ok::<(nat, EditModel), Seq<char>>(
                (body.len(), EditModel { new_files: m.new_files.push(fresh_file(f)), ..m }),
            )
        }),
{
    let a = varint_bytes((f.0 as u32) as nat);
    let b = varint_bytes(f.1.number as nat);
    let c = varint_bytes(f.1.file_size as nat);
    let d = length_prefixed_bytes(f.1.smallest);
    let e = length_prefixed_bytes(f.1.largest);
    let body = new_file_bytes(f).skip(varint_bytes(7).len() as int);
    assert(body =~= a + b + c + d + e);
    let p = body + rest;
    assert(p =~= a + (b + c + d + e + rest));
    lemma_level_roundtrip(f.0, b + c + d + e + rest);
    assert(p.skip(a.len() as int) =~= b + (c + d + e + rest));
    lemma_varint64_roundtrip(f.1.number, c + d + e + rest);
    assert(p.skip((a.len() + b.len()) as int) =~= c + (d + e + rest));
    lemma_varint64_roundtrip(f.1.file_size, d + e + rest);
    assert(p.skip((a.len() + b.len() + c.len()) as int) =~= d + (e + rest));
    lemma_key_roundtrip(f.1.smallest, e + rest);
    assert(p.skip((a.len() + b.len() + c.len() + d.len()) as int) =~= e + rest);
    lemma_key_roundtrip(f.1.largest, rest);
    assert(fresh_file(f) == (
        (f.0 as u32) as i32,
        FileMetaModel {
            refs: 0,
            allowed_seeks: 0,
            number: f.1.number,
            file_size: f.1.file_size,
            smallest: f.1.smallest,
            largest: f.1.largest,
        },
    ));
}

/// `src` holds `bytes` at `pos`.
pub open spec fn holds_at(src: Seq<u8>, pos: nat, bytes: Seq<u8>) -> bool {
    pos + bytes.len() <= src.len() && src.subrange(pos as int, (pos + bytes.len()) as int) == bytes
}

proof fn lemma_holds_split(src: Seq<u8>, pos: nat, a: Seq<u8>, b: Seq<u8>)
    requires
        holds_at(src, pos, a + b),
    ensures
        holds_at(src, pos, a),
        holds_at(src, pos + a.len(), b),
{
    let w = src.subrange(pos as int, (pos + a.len() + b.len()) as int);
    assert(w =~= a + b);
    assert(src.subrange(pos as int, (pos + a.len()) as int) =~= w.subrange(0, a.len() as int));
    assert(w.subrange(0, a.len() as int) =~= a);
    assert(src.subrange((pos + a.len()) as int, (pos + a.len() + b.len()) as int) =~= w.subrange(
        a.len() as int,
        w.len() as int,
    ));
    assert(w.subrange(a.len() as int, w.len() as int) =~= b);
}

proof fn lemma_step_at(src: Seq<u8>, pos: nat, m: EditModel, t: Tag, body: Seq<u8>, m2: EditModel)
    requires
        holds_at(src, pos, varint_bytes(tag_code(t) as nat) + body),
        spec_decode_field(
            t,
            body + src.skip((pos + varint_bytes(tag_code(t) as nat).len() + body.len()) as int),
            m,
        ) == Ok::<(nat, EditModel), Seq<char>>((body.len(), m2)),
    ensures
        spec_decode_from(src, pos, m) == spec_decode_from(
            src,
            pos + varint_bytes(tag_code(t) as nat).len() + body.len(),
            m2,
        ),
{
    let vb = varint_bytes(tag_code(t) as nat);
    lemma_holds_split(src, pos, vb, body);
    let q = pos + vb.len();
    assert(src.skip(q as int) =~= body + src.skip((q + body.len()) as int));
    lemma_step(src, pos, m, t, body, m2);
}

proof fn lemma_compact_pointers(src: Seq<u8>, pos: nat, m: EditModel, s: Seq<(i32, Seq<u8>)>)
    requires
        holds_at(src, pos, compact_pointers_bytes(s)),
        forall|i: int| 0 <= i < s.len() ==> valid_level(#[trigger] s[i].0) && valid_key(s[i].1),
    ensures
        spec_decode_from(src, pos, m) == spec_decode_from(
            src,
            pos + compact_pointers_bytes(s).len(),
            EditModel { compact_pointers: m.compact_pointers + s, ..m },
        ),
    decreases s.len(),
{
    if s.len() == 0 {
        assert(m.compact_pointers + s =~= m.compact_pointers);
    } else {
        let s0 = s.drop_last();
        let x = s.last();
        let a = compact_pointers_bytes(s0);
        let b = compact_pointer_bytes(x);
        lemma_holds_split(src, pos, a, b);
        assert forall|i: int| 0 <= i < s0.len() implies valid_level(#[trigger] s0[i].0) && valid_key(
            s0[i].1,
        ) by {
            assert(s0[i] == s[i]);
        }
        lemma_compact_pointers(src, pos, m, s0);
        let m1 = EditModel { compact_pointers: m.compact_pointers + s0, ..m };
        let body = varint_bytes((x.0 as u32) as nat) + length_prefixed_bytes(x.1);
        assert(b =~= varint_bytes(tag_code(Tag::CompactPointer) as nat) + body);
        lemma_compact_pointer_field(x, src.skip((pos + a.len() + b.len()) as int), m1);
        lemma_step_at(src, pos + a.len(), m1, Tag::CompactPointer, body, EditModel {
            compact_pointers: m1.compact_pointers.push(x),
            ..m1
        });
        assert(m1.compact_pointers.push(x) =~= m.compact_pointers + s);
    }
}

proof fn lemma_deleted_files(src: Seq<u8>, pos: nat, m: EditModel, s: Seq<(i32, u64)>)
    requires
        holds_at(src, pos, deleted_files_bytes(s)),
        forall|i: int| 0 <= i < s.len() ==> valid_level(#[trigger] s[i].0),
    ensures
        spec_decode_from(src, pos, m) == spec_decode_from(
            src,
            pos + deleted_files_bytes(s).len(),
            EditModel { deleted_files: m.deleted_files + s.to_set(), ..m },
        ),
    decreases s.len(),
{
    if s.len() == 0 {
        assert(m.deleted_files + s.to_set() =~= m.deleted_files);
    } else {
        let s0 = s.drop_last();
        let x = s.last();
        let a = deleted_files_bytes(s0);
        let b = deleted_file_bytes(x);
        lemma_holds_split(src, pos, a, b);
        assert forall|i: int| 0 <= i < s0.len() implies valid_level(#[trigger] s0[i].0) by {
            assert(s0[i] == s[i]);
        }
        lemma_deleted_files(src, pos, m, s0);
        let m1 = EditModel { deleted_files: m.deleted_files + s0.to_set(), ..m };
        let body = varint_bytes((x.0 as u32) as nat) + varint_bytes(x.1 as nat);
        assert(b =~= varint_bytes(tag_code(Tag::DeleteFile) as nat) + body);
        lemma_deleted_file_field(x, src.skip((pos + a.len() + b.len()) as int), m1);
        lemma_step_at(src, pos + a.len(), m1, Tag::DeleteFile, body, EditModel {
            deleted_files: m1.deleted_files.insert(x),
            ..m1
        });
        assert(m1.deleted_files.insert(x) =~= m.deleted_files + s.to_set()) by {
            assert(s =~= s0.push(x));
            assert forall|y: (i32, u64)| s.to_set().contains(y) <==> (s0.to_set().contains(y) || y
                == x) by {
                if s.contains(y) {
                    let i = choose|i: int| 0 <= i < s.len() && s[i] == y;
                    if i < s0.len() {
                        assert(s0[i] == y);
                    }
                }
                if s0.contains(y) {
                    let i = choose|i: int| 0 <= i < s0.len() && s0[i] == y;
                    assert(s[i] == y);
                }
                if y == x {
                    assert(s[s.len() - 1] == y);
                }
            }
        }
    }
}

proof fn lemma_new_files(src: Seq<u8>, pos: nat, m: EditModel, s: Seq<(i32, FileMetaModel)>)
    requires
        holds_at(src, pos, new_files_bytes(s)),
        forall|i: int|
            0 <= i < s.len() ==> valid_level(#[trigger] s[i].0) && valid_key(s[i].1.smallest)
                && valid_key(s[i].1.largest),
    ensures
        spec_decode_from(src, pos, m) == spec_decode_from(
            src,
            pos + new_files_bytes(s).len(),
            EditModel {
                new_files: m.new_files + s.map_values(|f: (i32, FileMetaModel)| fresh_file(f)),
                ..m
            },
        ),
    decreases s.len(),
{
    if s.len() == 0 {
        assert(m.new_files + s.map_values(|f: (i32, FileMetaModel)| fresh_file(f)) =~= m.new_files);
    } else {
        let s0 = s.drop_last();
        let x = s.last();
        let a = new_files_bytes(s0);
        let b = new_file_bytes(x);
        lemma_holds_split(src, pos, a, b);
        assert forall|i: int|
            0 <= i < s0.len() implies valid_level(#[trigger] s0[i].0) && valid_key(
                s0[i].1.smallest,
            ) && valid_key(s0[i].1.largest) by {
            assert(s0[i] == s[i]);
        }
        lemma_new_files(src, pos, m, s0);
        let m1 = EditModel {
            new_files: m.new_files + s0.map_values(|f: (i32, FileMetaModel)| fresh_file(f)),
            ..m
        };
        let vb = varint_bytes(tag_code(Tag::NewFile) as nat);
        let body = b.skip(vb.len() as int);
        assert(b =~= vb + body);
        lemma_new_file_field(x, src.skip((pos + a.len() + b.len()) as int), m1);
        lemma_step_at(src, pos + a.len(), m1, Tag::NewFile, body, EditModel {
            new_files: m1.new_files.push(fresh_file(x)),
            ..m1
        });
        assert(m1.new_files.push(fresh_file(x)) =~= m.new_files + s.map_values(
            |f: (i32, FileMetaModel)| fresh_file(f),
        ));
    }
}

proof fn lemma_optional_u64(src: Seq<u8>, pos: nat, m: EditModel, t: Tag, v: Option<u64>)
    requires
        t == Tag::LogNumber || t == Tag::NextFileNumber || t == Tag::LastSequence || t
            == Tag::PrevLogNumber,
        holds_at(src, pos, optional_u64_bytes(tag_code(t), v)),
    ensures
        spec_decode_from(src, pos, m) == spec_decode_from(
            src,
            pos + optional_u64_bytes(tag_code(t), v).len(),
            match v {
                None => m,
                Some(x) => if t == Tag::LogNumber {
                    EditModel { log_number: Some(x), ..m }
                } else if t == Tag::NextFileNumber {
                    EditModel { next_file_number: Some(x), ..m }
                } else if t == Tag::PrevLogNumber {
                    EditModel { prev_log_number: Some(x), ..m }
                } else {
                    EditModel { last_sequence: Some(x), ..m }
                },
            },
        ),
{
    if let Some(x) = v {
        let body = varint_bytes(x as nat);
        lemma_u64_field(t, x, src.skip((pos + varint_bytes(tag_code(t) as nat).len() + body.len()) as int), m);
        lemma_step_at(src, pos, m, t, body, if t == Tag::LogNumber {
            EditModel { log_number: Some(x), ..m }
        } else if t == Tag::NextFileNumber {
            EditModel { next_file_number: Some(x), ..m }
        } else if t == Tag::PrevLogNumber {
            EditModel { prev_log_number: Some(x), ..m }
        } else {
            EditModel { last_sequence: Some(x), ..m }
        });
    }
}

proof fn lemma_comparator(src: Seq<u8>, pos: nat, m: EditModel, c: Option<Seq<char>>)
    requires
        holds_at(src, pos, comparator_bytes(c)),
        c matches Some(name) ==> encode_utf8(name).len() < 0x1_0000_0000,
    ensures
        spec_decode_from(src, pos, m) == spec_decode_from(
            src,
            pos + comparator_bytes(c).len(),
            match c {
                None => m,
                Some(name) => EditModel { comparator: Some(name), ..m },
            },
        ),
{
    if let Some(name) = c {
        let bytes = encode_utf8(name);
        let body = length_prefixed_bytes(bytes);
        let rest = src.skip((pos + varint_bytes(1).len() + body.len()) as int);
        lemma_length_prefixed_roundtrip(bytes, rest);
        encode_utf8_valid_utf8(name);
        encode_utf8_decode_utf8(name);
        lemma_step_at(src, pos, m, Tag::Compactor, body, EditModel { comparator: Some(name), ..m });
    }
}

proof fn lemma_decode_end(src: Seq<u8>, m: EditModel)
    ensures
        spec_decode_from(src, src.len(), m) == (m, None::<Seq<char>>),
{
    reveal(spec_decode_from);
}

/// Decoding the encoding of an edit gives the edit back, its new files with no
/// references and no allowed seeks, on every edit that `encodable_edit` admits.
#[verifier::rlimit(100)]
pub proof fn lemma_version_edit_roundtrip(e: &VersionEdit)
    requires
        encodable_edit(e@),
    ensures
        spec_decode_from(edit_bytes(e@), 0, EditModel::empty()) == (decoded_edit(e@), None::<
            Seq<char>,
        >),
{
    let m = e@;
    deleted_files_in_order(e);
    let ds = sorted_pairs(m.deleted_files);
    let src = edit_bytes(m);
    let c = comparator_bytes(m.comparator);
    let l = optional_u64_bytes(2, m.log_number);
    let p = optional_u64_bytes(9, m.prev_log_number);
    let n = optional_u64_bytes(3, m.next_file_number);
    let q = optional_u64_bytes(4, m.last_sequence);
    let cps = compact_pointers_bytes(m.compact_pointers);
    let dels = deleted_files_bytes(ds);
    let nfs = new_files_bytes(m.new_files);
    assert(src =~= c + l + p + n + q + cps + dels + nfs);
    assert(src.subrange(0, src.len() as int) =~= src);
    let e0 = EditModel::empty();
    lemma_holds_split(src, 0, c + l + p + n + q + cps + dels, nfs);
    lemma_holds_split(src, 0, c + l + p + n + q + cps, dels);
    lemma_holds_split(src, 0, c + l + p + n + q, cps);
    lemma_holds_split(src, 0, c + l + p + n, q);
    lemma_holds_split(src, 0, c + l + p, n);
    lemma_holds_split(src, 0, c + l, p);
    lemma_holds_split(src, 0, c, l);
    lemma_comparator(src, 0, e0, m.comparator);
    let m1 = match m.comparator {
        None => e0,
        Some(name) => EditModel { comparator: Some(name), ..e0 },
    };
    lemma_optional_u64(src, c.len(), m1, Tag::LogNumber, m.log_number);
    let m2 = match m.log_number {
        None => m1,
        Some(x) => EditModel { log_number: Some(x), ..m1 },
    };
    lemma_optional_u64(src, c.len() + l.len(), m2, Tag::PrevLogNumber, m.prev_log_number);
    let m2p = match m.prev_log_number {
        None => m2,
        Some(x) => EditModel { prev_log_number: Some(x), ..m2 },
    };
    lemma_optional_u64(src, c.len() + l.len() + p.len(), m2p, Tag::NextFileNumber, m.next_file_number);
    let m3 = match m.next_file_number {
        None => m2p,
        Some(x) => EditModel { next_file_number: Some(x), ..m2p },
    };
    lemma_optional_u64(src, c.len() + l.len() + p.len() + n.len(), m3, Tag::LastSequence, m.last_sequence);
    let m4 = match m.last_sequence {
        None => m3,
        Some(x) => EditModel { last_sequence: Some(x), ..m3 },
    };
    let p5 = c.len() + l.len() + p.len() + n.len() + q.len();
    lemma_compact_pointers(src, p5, m4, m.compact_pointers);
    let m5 = EditModel { compact_pointers: m4.compact_pointers + m.compact_pointers, ..m4 };
    let p6 = p5 + cps.len();
    assert forall|i: int| 0 <= i < ds.len() implies valid_level(#[trigger] ds[i].0) by {
        assert(ds.to_set().contains(ds[i]));
    }
    lemma_deleted_files(src, p6, m5, ds);
    let m6 = EditModel { deleted_files: m5.deleted_files + ds.to_set(), ..m5 };
    let p7 = p6 + dels.len();
    lemma_new_files(src, p7, m6, m.new_files);
    let m7 = EditModel {
        new_files: m6.new_files + m.new_files.map_values(|f: (i32, FileMetaModel)| fresh_file(f)),
        ..m6
    };
    assert(p7 + nfs.len() == src.len());
    lemma_decode_end(src, m7);
    assert(m7.compact_pointers =~= m.compact_pointers);
    assert(m7.deleted_files =~= m.deleted_files);
    assert(m7.new_files =~= decoded_edit(m).new_files);
    assert(m7 == decoded_edit(m));
}

proof fn lemma_new_files_bytes_fresh(s: Seq<(i32, FileMetaModel)>)
    ensures
        new_files_bytes(s.map_values(|f: (i32, FileMetaModel)| fresh_file(f))) == new_files_bytes(s),
    decreases s.len(),
{
    let t = s.map_values(|f: (i32, FileMetaModel)| fresh_file(f));
    if s.len() > 0 {
        lemma_new_files_bytes_fresh(s.drop_last());
        assert(t.drop_last() =~= s.drop_last().map_values(|f: (i32, FileMetaModel)| fresh_file(f)));
        assert(new_file_bytes(t.last()) == new_file_bytes(s.last()));
    }
}

/// Encoding the edit that decoding an encoded edit gives reproduces the same bytes.
pub proof fn lemma_version_edit_reencode(e: &VersionEdit)
    requires
        encodable_edit(e@),
    ensures
        spec_decode_from(edit_bytes(e@), 0, EditModel::empty()).1 is None,
        edit_bytes(spec_decode_from(edit_bytes(e@), 0, EditModel::empty()).0) == edit_bytes(e@),
{
    lemma_version_edit_roundtrip(e);
    lemma_new_files_bytes_fresh(e@.new_files);
}

} // verus!
