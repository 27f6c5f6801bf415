//! A version edit: the changes between two versions of the database's file set, and its
//! encoding in the descriptor log.
use crate::db::dbformat::{InternalKey, SequenceNumber};
use crate::db::error::{corruption, DbError};
use crate::db::sorted_pairs::{btree_pairs_in_order, sorted_pairs};
use crate::util::coding::{
    get_length_prefixed_slice, get_varint32, get_varint64, length_prefixed_bytes,
    put_length_prefixed_slice, put_varint32, put_varint64, spec_get_length_prefixed,
    spec_get_varint32, spec_get_varint64, varint_bytes,
};
use crate::util::text::{
    decimal, format_i32, format_invalid_tag, format_u64, int_decimal, internal_key_text, lossy_text,
    utf8_lossy,
};
use crate::db::dbformat::{parsable_internal_key, tag_part, user_part};
use std::collections::BTreeSet;
use vstd::prelude::*;

verus! {

/// The number of levels of the database.
pub const NUM_LEVELS: u32 = 7;

pub type DeletedFileSet = BTreeSet<(i32, u64)>;

/// A table file of a version.
#[derive(Debug)]
pub struct FileMetaData {
    pub refs: i32,
    pub allowed_seeks: i32,
    pub number: u64,
    pub file_size: u64,
    pub smallest: InternalKey,
    pub largest: InternalKey,
}

/// A table file as values.
pub struct FileMetaModel {
    pub refs: i32,
    pub allowed_seeks: i32,
    pub number: u64,
    pub file_size: u64,
    pub smallest: Seq<u8>,
    pub largest: Seq<u8>,
}

impl View for FileMetaData {
    type V = FileMetaModel;

    open spec fn view(&self) -> FileMetaModel {
        FileMetaModel {
            refs: self.refs,
            allowed_seeks: self.allowed_seeks,
            number: self.number,
            file_size: self.file_size,
            smallest: self.smallest@,
            largest: self.largest@,
        }
    }
}

/// A version edit as values: each single field is present or not.
pub struct EditModel {
    pub comparator: Option<Seq<char>>,
    pub log_number: Option<u64>,
    pub prev_log_number: Option<u64>,
    pub next_file_number: Option<u64>,
    pub last_sequence: Option<u64>,
    pub compact_pointers: Seq<(i32, Seq<u8>)>,
    pub deleted_files: Set<(i32, u64)>,
    pub new_files: Seq<(i32, FileMetaModel)>,
}

impl EditModel {
    /// The edit that changes nothing.
    pub open spec fn empty() -> EditModel {
        EditModel {
            comparator: None,
            log_number: None,
            prev_log_number: None,
            next_file_number: None,
            last_sequence: None,
            compact_pointers: Seq::empty(),
            deleted_files: Set::empty(),
            new_files: Seq::empty(),
        }
    }
}

/// A version edit.
#[derive(Debug, Default)]
pub struct VersionEdit {
    comparator: String,
    log_number: u64,
    prev_log_number: u64,
    next_file_number: u64,
    last_sequence: SequenceNumber,
    has_comparator: bool,
    has_log_number: bool,
    has_prev_log_number: bool,
    has_next_file_number: bool,
    has_last_sequence: bool,
    pub compact_pointers: Vec<(i32, InternalKey)>,
    pub deleted_files: DeletedFileSet,
    pub new_files: Vec<(i32, FileMetaData)>,
}

pub open spec fn present<T>(has: bool, v: T) -> Option<T> {
    if has {
        Some(v)
    } else {
        None
    }
}

impl View for VersionEdit {
    type V = EditModel;

    closed spec fn view(&self) -> EditModel {
        EditModel {
            comparator: present(self.has_comparator, self.comparator@),
            log_number: present(self.has_log_number, self.log_number),
            prev_log_number: present(self.has_prev_log_number, self.prev_log_number),
            next_file_number: present(self.has_next_file_number, self.next_file_number),
            last_sequence: present(self.has_last_sequence, self.last_sequence),
            compact_pointers: self.compact_pointers@.map_values(|p: (i32, InternalKey)| (p.0, p.1@)),
            deleted_files: self.deleted_files@,
            new_files: self.new_files@.map_values(|p: (i32, FileMetaData)| (p.0, p.1@)),
        }
    }
}

/// The tags of the fields of an encoded version edit.
#[derive(Debug, Clone, Copy, PartialEq, Eq, Structural)]
pub enum Tag {
    Compactor,
    LogNumber,
    NextFileNumber,
    LastSequence,
    CompactPointer,
    DeleteFile,
    NewFile,
    PrevLogNumber,
}

/// The number written for each tag.
pub open spec fn tag_code(t: Tag) -> u32 {
    match t {
        Tag::Compactor => 1,
        Tag::LogNumber => 2,
        Tag::NextFileNumber => 3,
        Tag::LastSequence => 4,
        Tag::CompactPointer => 5,
        Tag::DeleteFile => 6,
        Tag::NewFile => 7,
        Tag::PrevLogNumber => 9,
    }
}

/// The tag read for each number, as written: 1 to 7, and 9 for the previous log number.
pub open spec fn tag_of_byte(v: u8) -> Option<Tag> {
    if v == 1 {
        Some(Tag::Compactor)
    } else if v == 2 {
        Some(Tag::LogNumber)
    } else if v == 3 {
        Some(Tag::NextFileNumber)
    } else if v == 4 {
        Some(Tag::LastSequence)
    } else if v == 5 {
        Some(Tag::CompactPointer)
    } else if v == 6 {
        Some(Tag::DeleteFile)
    } else if v == 7 {
        Some(Tag::NewFile)
    } else if v == 9 {
        Some(Tag::PrevLogNumber)
    } else {
        None
    }
}

impl Tag {
    /// The number written for this tag.
    pub fn code(&self) -> (r: u32)
        ensures
            r == tag_code(*self),
    {
        match self {
            Tag::Compactor => 1,
            Tag::LogNumber => 2,
            Tag::NextFileNumber => 3,
            Tag::LastSequence => 4,
            Tag::CompactPointer => 5,
            Tag::DeleteFile => 6,
            Tag::NewFile => 7,
            Tag::PrevLogNumber => 9,
        }
    }

    /// The tag read for byte `v`.
    pub fn try_from_u8(v: u8) -> (r: Result<Tag, &'static str>)
        ensures
            match r {
                Ok(t) => tag_of_byte(v) == Some(t),
                Err(msg) => tag_of_byte(v) is None && msg@ == "Invalid value"@,
            },
    {
        match v {
            1 => Ok(Tag::Compactor),
            2 => Ok(Tag::LogNumber),
            3 => Ok(Tag::NextFileNumber),
            4 => Ok(Tag::LastSequence),
            5 => Ok(Tag::CompactPointer),
            6 => Ok(Tag::DeleteFile),
            7 => Ok(Tag::NewFile),
            9 => Ok(Tag::PrevLogNumber),
            _ => Err("Invalid value"),
        }
    }
}

// ---------------------------------------------------------------------------
// Encoding
// ---------------------------------------------------------------------------
/// A tag followed by a varint64.
pub open spec fn tagged_u64_bytes(tag: u32, v: u64) -> Seq<u8> {
    varint_bytes(tag as nat) + varint_bytes(v as nat)
}

/// A single field, when present.
pub open spec fn optional_u64_bytes(tag: u32, v: Option<u64>) -> Seq<u8> {
    match v {
        Some(x) => tagged_u64_bytes(tag, x),
        None => Seq::empty(),
    }
}

/// The encoding of the comparator name, when present.
pub open spec fn comparator_bytes(c: Option<Seq<char>>) -> Seq<u8> {
    match c {
        Some(name) => varint_bytes(1) + length_prefixed_bytes(vstd::utf8::encode_utf8(name)),
        None => Seq::empty(),
    }
}

/// The single fields, in the order they are written.
pub open spec fn header_bytes(m: EditModel) -> Seq<u8> {
    comparator_bytes(m.comparator) + optional_u64_bytes(2, m.log_number) + optional_u64_bytes(
        9,
        m.prev_log_number,
    ) + optional_u64_bytes(3, m.next_file_number) + optional_u64_bytes(4, m.last_sequence)
}

pub open spec fn compact_pointer_bytes(cp: (i32, Seq<u8>)) -> Seq<u8> {
    varint_bytes(5) + varint_bytes((cp.0 as u32) as nat) + length_prefixed_bytes(cp.1)
}

pub open spec fn deleted_file_bytes(f: (i32, u64)) -> Seq<u8> {
    varint_bytes(6) + varint_bytes((f.0 as u32) as nat) + varint_bytes(f.1 as nat)
}

pub open spec fn new_file_bytes(f: (i32, FileMetaModel)) -> Seq<u8> {
    varint_bytes(7) + varint_bytes((f.0 as u32) as nat) + varint_bytes(f.1.number as nat)
        + varint_bytes(f.1.file_size as nat) + length_prefixed_bytes(f.1.smallest)
        + length_prefixed_bytes(f.1.largest)
}

pub open spec fn compact_pointers_bytes(s: Seq<(i32, Seq<u8>)>) -> Seq<u8>
    decreases s.len(),
{
    if s.len() == 0 {
        Seq::empty()
    } else {
        compact_pointers_bytes(s.drop_last()) + compact_pointer_bytes(s.last())
    }
}

pub open spec fn deleted_files_bytes(s: Seq<(i32, u64)>) -> Seq<u8>
    decreases s.len(),
{
    if s.len() == 0 {
        Seq::empty()
    } else {
        deleted_files_bytes(s.drop_last()) + deleted_file_bytes(s.last())
    }
}

pub open spec fn new_files_bytes(s: Seq<(i32, FileMetaModel)>) -> Seq<u8>
    decreases s.len(),
{
    if s.len() == 0 {
        Seq::empty()
    } else {
        new_files_bytes(s.drop_last()) + new_file_bytes(s.last())
    }
}

/// The encoding of an edit: the single fields, the compact pointers, the deleted files in
/// increasing order, and the new files.
pub open spec fn edit_bytes(m: EditModel) -> Seq<u8> {
    header_bytes(m) + compact_pointers_bytes(m.compact_pointers) + deleted_files_bytes(
        sorted_pairs(m.deleted_files),
    ) + new_files_bytes(m.new_files)
}

// ---------------------------------------------------------------------------
// Decoding
// ---------------------------------------------------------------------------
/// The text of the corruption for each failed field.
pub open spec fn field_error(t: Tag, part: nat) -> Seq<char> {
    match t {
        Tag::Compactor => "VersionEdit: comparator name"@,
        Tag::LogNumber => "VersionEdit: log_number"@,
        Tag::NextFileNumber => "VersionEdit: next_file_number"@,
        Tag::LastSequence => "VersionEdit: last_sequence"@,
        Tag::CompactPointer => if part == 0 {
            "VersionEdit: compact_pointer level"@
        } else {
            "VersionEdit: compact_pointer key"@
        },
        Tag::DeleteFile => if part == 0 {
            "VersionEdit: delete_files level"@
        } else {
            "VersionEdit: delete_files file_number"@
        },
        Tag::NewFile => if part == 0 {
            "VersionEdit: new_file level"@
        } else if part == 1 {
            "VersionEdit: new_file number"@
        } else if part == 2 {
            "VersionEdit: new_file file_size"@
        } else if part == 3 {
            "VersionEdit: new_file smallest"@
        } else {
            "VersionEdit: new_file largest"@
        },
        Tag::PrevLogNumber => "VersionEdit: prev_log_number"@,
    }
}

/// A level at the front of `p`: a varint32 below the number of levels.
pub open spec fn spec_get_level(p: Seq<u8>) -> Option<(nat, u32)> {
    match spec_get_varint32(p) {
        Some((n, l)) => if l < NUM_LEVELS {
            Some((n, l))
        } else {
            None
        },
        None => None,
    }
}

/// A non-empty length-prefixed internal key at the front of `p`.
pub open spec fn spec_get_internal_key(p: Seq<u8>) -> Option<(nat, Seq<u8>)> {
    match spec_get_length_prefixed(p) {
        Some((n, k)) => if k.len() > 0 {
            Some((n, k))
        } else {
            None
        },
        None => None,
    }
}

/// One entry of a new file: level, number, file size, smallest and largest key, and the
/// bytes consumed; or the part that failed.
pub open spec fn spec_new_file(p: Seq<u8>) -> Result<(nat, (i32, FileMetaModel)), nat> {
    match spec_get_level(p) {
        None => Err(0),
        Some((n0, level)) => match spec_get_varint64(p.skip(n0 as int)) {
            None => Err(1),
            Some((n1, number)) => match spec_get_varint64(p.skip((n0 + n1) as int)) {
                None => Err(2),
                Some((n2, file_size)) => match spec_get_internal_key(p.skip((n0 + n1 + n2) as int)) {
                    None => Err(3),
                    Some((n3, smallest)) => match spec_get_internal_key(p.skip((n0 + n1 + n2 + n3) as int)) {
                        None => Err(4),
                        Some((n4, largest)) => Ok(
                            (
                                n0 + n1 + n2 + n3 + n4,
                                (
                                    level as i32,
                                    FileMetaModel {
                                        refs: 0,
                                        allowed_seeks: 0,
                                        number,
                                        file_size,
                                        smallest,
                                        largest,
                                    },
                                ),
                            ),
                        ),
                    },
                },
            },
        },
    }
}

/// Decodes the field with tag `t` at the front of `p` into `m`: the bytes consumed and
/// the updated edit, or the text of the corruption.
pub open spec fn spec_decode_field(t: Tag, p: Seq<u8>, m: EditModel) -> Result<(nat, EditModel), Seq<char>> {
    match t {
        Tag::Compactor => match spec_get_length_prefixed(p) {
            None => Err(field_error(t, 0)),
            Some((n, name)) => Ok((n, EditModel { comparator: Some(lossy_text(name)), ..m })),
        },
        Tag::LogNumber => match spec_get_varint64(p) {
            None => Err(field_error(t, 0)),
            Some((n, v)) => Ok((n, EditModel { log_number: Some(v), ..m })),
        },
        Tag::NextFileNumber => match spec_get_varint64(p) {
            None => Err(field_error(t, 0)),
            Some((n, v)) => Ok((n, EditModel { next_file_number: Some(v), ..m })),
        },
        Tag::LastSequence => match spec_get_varint64(p) {
            None => Err(field_error(t, 0)),
            Some((n, v)) => Ok((n, EditModel { last_sequence: Some(v), ..m })),
        },
        Tag::PrevLogNumber => match spec_get_varint64(p) {
            None => Err(field_error(t, 0)),
            Some((n, v)) => Ok((n, EditModel { prev_log_number: Some(v), ..m })),
        },
        Tag::CompactPointer => match spec_get_level(p) {
            None => Err(field_error(t, 0)),
            Some((n0, level)) => match spec_get_internal_key(p.skip(n0 as int)) {
                None => Err(field_error(t, 1)),
                Some((n1, key)) => Ok(
                    (
                        n0 + n1,
                        EditModel {
                            compact_pointers: m.compact_pointers.push((level as i32, key)),
                            ..m
                        },
                    ),
                ),
            },
        },
        Tag::DeleteFile => match spec_get_level(p) {
            None => Err(field_error(t, 0)),
            Some((n0, level)) => match spec_get_varint64(p.skip(n0 as int)) {
                None => Err(field_error(t, 1)),
                Some((n1, file)) => Ok(
                    (
                        n0 + n1,
                        EditModel {
                            deleted_files: m.deleted_files.insert((level as i32, file)),
                            ..m
                        },
                    ),
                ),
            },
        },
        Tag::NewFile => match spec_new_file(p) {
            Err(part) => Err(field_error(t, part)),
            Ok((n, f)) => Ok((n, EditModel { new_files: m.new_files.push(f), ..m })),
        },
    }
}

/// The fields decoded from position `pos` of `src` onwards into `m`: the edit reached,
/// and the text of the corruption that stopped decoding, if any.
#[verifier::opaque]
pub open spec fn spec_decode_from(src: Seq<u8>, pos: nat, m: EditModel) -> (EditModel, Option<Seq<char>>)
    decreases (if pos >= src.len() {
        0
    } else {
        src.len() - pos
    }),
{
    if pos >= src.len() {
        (m, None)
    } else {
        match spec_get_varint32(src.skip(pos as int)) {
            None => (m, Some("VersionEdit: invalid varint32"@)),
            Some((n, tag_u)) => match tag_of_byte((tag_u % 256) as u8) {
                None => (m, Some("VersionEdit: invalid tag("@ + decimal(tag_u as nat) + ")"@)),
                Some(t) => match spec_decode_field(t, src.skip((pos + n) as int), m) {
                    Err(msg) => (m, Some(msg)),
                    Ok((k, m2)) => {
                        proof {
                            crate::util::coding::lemma_varint_size_bounds(src.skip(pos as int), 5);
                        }
                        spec_decode_from(src, pos + n + k, m2)
                    },
                },
            },
        }
    }
}

/// The deleted files of an edit, listed in increasing order.
pub proof fn deleted_files_in_order(e: &VersionEdit)
    ensures
        crate::db::sorted_pairs::pairs_increasing(sorted_pairs(e@.deleted_files)),
        sorted_pairs(e@.deleted_files).to_set() == e@.deleted_files,
{
    crate::db::sorted_pairs::lemma_btree_pairs_enumerable(&e.deleted_files);
}

impl VersionEdit {
    pub fn clear(&mut self)
        ensures
            final(self)@ == EditModel::empty(),
    {
        self.comparator = String::new();
        self.log_number = 0;
        self.prev_log_number = 0;
        self.last_sequence = 0;
        self.next_file_number = 0;
        self.has_comparator = false;
        self.has_log_number = false;
        self.has_prev_log_number = false;
        self.has_next_file_number = false;
        self.has_last_sequence = false;
        self.compact_pointers.clear();
        self.new_files.clear();
        self.deleted_files.clear();
        assert(self@.compact_pointers =~= Seq::empty());
        assert(self@.new_files =~= Seq::empty());
    }

    pub fn new() -> (r: VersionEdit)
        ensures
            r@ == EditModel::empty(),
    {
        let mut e = VersionEdit {
            comparator: String::new(),
            log_number: 0,
            prev_log_number: 0,
            next_file_number: 0,
            last_sequence: 0,
            has_comparator: false,
            has_log_number: false,
            has_prev_log_number: false,
            has_next_file_number: false,
            has_last_sequence: false,
            compact_pointers: Vec::new(),
            deleted_files: BTreeSet::new(),
            new_files: Vec::new(),
        };
        assert(e@.compact_pointers =~= Seq::empty());
        assert(e@.new_files =~= Seq::empty());
        e
    }

    pub fn set_comparator_name(&mut self, name: &str)
        ensures
            final(self)@ == (EditModel { comparator: Some(name@), ..old(self)@ }),
    {
        self.has_comparator = true;
        self.comparator = name.to_owned();
    }

    pub fn set_log_number(&mut self, log_number: u64)
        ensures
            final(self)@ == (EditModel { log_number: Some(log_number), ..old(self)@ }),
    {
        self.has_log_number = true;
        self.log_number = log_number;
    }

    pub fn set_prev_log_number(&mut self, prev_log_number: u64)
        ensures
            final(self)@ == (EditModel { prev_log_number: Some(prev_log_number), ..old(self)@ }),
    {
        self.has_prev_log_number = true;
        self.prev_log_number = prev_log_number;
    }

    pub fn set_next_file(&mut self, next_file_number: u64)
        ensures
            final(self)@ == (EditModel { next_file_number: Some(next_file_number), ..old(self)@ }),
    {
        self.has_next_file_number = true;
        self.next_file_number = next_file_number;
    }

    pub fn set_last_sequence(&mut self, last_sequence: SequenceNumber)
        ensures
            final(self)@ == (EditModel { last_sequence: Some(last_sequence), ..old(self)@ }),
    {
        self.has_last_sequence = true;
        self.last_sequence = last_sequence;
    }

    pub fn set_compact_pointer(&mut self, level: i32, key: InternalKey)
        ensures
            final(self)@ == (EditModel {
                compact_pointers: old(self)@.compact_pointers.push((level, key@)),
                ..old(self)@
            }),
    {
        let ghost k = key@;
        self.compact_pointers.push((level, key));
        assert(self@.compact_pointers =~= old(self)@.compact_pointers.push((level, k)));
    }

    pub fn add_file(
        &mut self,
        level: i32,
        file: u64,
        file_size: u64,
        smallest: InternalKey,
        largest: InternalKey,
    )
        ensures
            final(self)@ == (EditModel {
                new_files: old(self)@.new_files.push(
                    (
                        level,
                        FileMetaModel {
                            refs: 0,
                            allowed_seeks: 0,
                            number: file,
                            file_size,
                            smallest: smallest@,
                            largest: largest@,
                        },
                    ),
                ),
                ..old(self)@
            }),
    {
        let meta = FileMetaData { refs: 0, allowed_seeks: 0, number: file, file_size, smallest, largest };
        let ghost mm = meta@;
        self.new_files.push((level, meta));
        assert(self@.new_files =~= old(self)@.new_files.push((level, mm)));
    }

    pub fn remove_file(&mut self, level: i32, file: u64)
        ensures
            final(self)@ == (EditModel {
                deleted_files: old(self)@.deleted_files.insert((level, file)),
                ..old(self)@
            }),
    {
        broadcast use vstd::laws_cmp::group_laws_cmp;
        assert(vstd::laws_cmp::obeys_cmp::<(i32, u64)>());
        self.deleted_files.insert((level, file));
        assert(self@.compact_pointers =~= old(self)@.compact_pointers);
        assert(self@.new_files =~= old(self)@.new_files);
    }
}

/// Appends a tagged varint64 when `has` is set.
fn encode_optional_u64(v: &mut Vec<u8>, has: bool, tag: Tag, x: u64)
    ensures
        final(v)@ == old(v)@ + optional_u64_bytes(tag_code(tag), present(has, x)),
{
    if has {
        let mut t = put_varint32(tag.code());
        v.append(&mut t);
        let mut y = put_varint64(x);
        v.append(&mut y);
    }
    assert(v@ =~= old(v)@ + optional_u64_bytes(tag_code(tag), present(has, x)));
}

impl VersionEdit {
    /// The encoding of this edit.
    pub fn encode_to(&self) -> (r: Vec<u8>)
        ensures
            r@ == edit_bytes(self@),
    {
        let mut v: Vec<u8> = Vec::new();
        self.encode_header(&mut v);
        self.encode_compact_pointers(&mut v);
        self.encode_deleted_files(&mut v);
        self.encode_new_files(&mut v);
        assert(v@ =~= edit_bytes(self@));
        v
    }

    fn encode_header(&self, v: &mut Vec<u8>)
        ensures
            final(v)@ == old(v)@ + header_bytes(self@),
    {
        let ghost start = v@;
        if self.has_comparator {
            let mut t = put_varint32(Tag::Compactor.code());
            v.append(&mut t);
            let mut name = put_length_prefixed_slice(self.comparator.as_str().as_bytes());
            v.append(&mut name);
        }
        let ghost s1 = v@;
        assert(s1 =~= start + comparator_bytes(present(self.has_comparator, self.comparator@)));
        encode_optional_u64(v, self.has_log_number, Tag::LogNumber, self.log_number);
        encode_optional_u64(v, self.has_prev_log_number, Tag::PrevLogNumber, self.prev_log_number);
        encode_optional_u64(v, self.has_next_file_number, Tag::NextFileNumber, self.next_file_number);
        encode_optional_u64(v, self.has_last_sequence, Tag::LastSequence, self.last_sequence);
        assert(v@ =~= start + header_bytes(self@));
    }

    fn encode_compact_pointers(&self, v: &mut Vec<u8>)
        ensures
            final(v)@ == old(v)@ + compact_pointers_bytes(self@.compact_pointers),
    {
        let ghost m = self@;
        let ghost head = v@;
        let mut i: usize = 0;
        while i < self.compact_pointers.len()
            invariant
                m == self@,
                i <= self.compact_pointers@.len(),
                v@ == head + compact_pointers_bytes(m.compact_pointers.take(i as int)),
            decreases self.compact_pointers@.len() - i,
        {
            let cp = &self.compact_pointers[i];
            let mut t = put_varint32(Tag::CompactPointer.code());
            v.append(&mut t);
            let mut l = put_varint32(cp.0 as u32);
            v.append(&mut l);
            let mut k = put_length_prefixed_slice(cp.1.encode());
            v.append(&mut k);
            proof {
                let s = m.compact_pointers;
                assert(s.take(i + 1).drop_last() =~= s.take(i as int));
                assert(s[i as int] == (cp.0, cp.1@));
            }
            i = i + 1;
        }
        assert(m.compact_pointers.take(i as int) =~= m.compact_pointers);
    }

    fn encode_deleted_files(&self, v: &mut Vec<u8>)
        ensures
            final(v)@ == old(v)@ + deleted_files_bytes(sorted_pairs(self@.deleted_files)),
    {
        let ghost head = v@;
        let deleted = btree_pairs_in_order(&self.deleted_files);
        let mut i: usize = 0;
        while i < deleted.len()
            invariant
                i <= deleted@.len(),
                v@ == head + deleted_files_bytes(deleted@.take(i as int)),
            decreases deleted@.len() - i,
        {
            let f = deleted[i];
            let mut t = put_varint32(Tag::DeleteFile.code());
            v.append(&mut t);
            let mut l = put_varint32(f.0 as u32);
            v.append(&mut l);
            let mut x = put_varint64(f.1);
            v.append(&mut x);
            assert(deleted@.take(i + 1).drop_last() =~= deleted@.take(i as int));
            i = i + 1;
        }
        assert(deleted@.take(i as int) =~= deleted@);
    }

    fn encode_new_files(&self, v: &mut Vec<u8>)
        ensures
            final(v)@ == old(v)@ + new_files_bytes(self@.new_files),
    {
        let ghost m = self@;
        let ghost head = v@;
        let mut i: usize = 0;
        while i < self.new_files.len()
            invariant
                m == self@,
                i <= self.new_files@.len(),
                v@ == head + new_files_bytes(m.new_files.take(i as int)),
            decreases self.new_files@.len() - i,
        {
            let f = &self.new_files[i];
            let mut t = put_varint32(Tag::NewFile.code());
            v.append(&mut t);
            let mut l = put_varint32(f.0 as u32);
            v.append(&mut l);
            let mut x = put_varint64(f.1.number);
            v.append(&mut x);
            let mut y = put_varint64(f.1.file_size);
            v.append(&mut y);
            let mut a = put_length_prefixed_slice(f.1.smallest.encode());
            v.append(&mut a);
            let mut b = put_length_prefixed_slice(f.1.largest.encode());
            v.append(&mut b);
            proof {
                let s = m.new_files;
                assert(s.take(i + 1).drop_last() =~= s.take(i as int));
                assert(s[i as int] == (f.0, f.1@));
            }
            i = i + 1;
        }
        assert(m.new_files.take(i as int) =~= m.new_files);
    }

    /// A level at the front of `src`.
    fn get_level(src: &[u8]) -> (r: Option<(usize, u32)>)
        ensures
            match r {
                Some((n, l)) => spec_get_level(src@) == Some((n as nat, l)),
                None => spec_get_level(src@) is None,
            },
    {
        let (bytes_read, level) = match get_varint32(src) {
            Some(x) => x,
            None => return None,
        };
        if level >= NUM_LEVELS {
            return None;
        }
        Some((bytes_read, level))
    }

    /// A non-empty length-prefixed internal key at the front of `src`.
    fn get_internal_key(src: &[u8]) -> (r: Option<(usize, InternalKey)>)
        ensures
            match r {
                Some((n, k)) => spec_get_internal_key(src@) == Some((n as nat, k@)),
                None => spec_get_internal_key(src@) is None,
            },
    {
        let (bytes_read, key) = match get_length_prefixed_slice(src) {
            Some(x) => x,
            None => return None,
        };
        match InternalKey::decode_from(key) {
            Some(k) => Some((bytes_read, k)),
            None => None,
        }
    }
}

impl VersionEdit {
    /// Decodes the field tagged `tag` at the front of `p` into this edit, returning the
    /// bytes consumed. On failure the edit is unchanged.
    fn decode_field(&mut self, tag: Tag, p: &[u8]) -> (r: Result<usize, DbError>)
        ensures
            match spec_decode_field(tag, p@, old(self)@) {
                Ok((n, m2)) => r matches Ok(k) && k == n && final(self)@ == m2,
                Err(msg) => r matches Err(DbError::Corruption(s)) && s@ == msg && final(self)@
                    == old(self)@,
            },
            r matches Ok(k) ==> k <= p@.len(),
    {
        proof {
            crate::util::coding::lemma_varint_size_bounds(p@, 5);
            crate::util::coding::lemma_varint_size_bounds(p@, 10);
        }
        match tag {
            Tag::Compactor => match get_length_prefixed_slice(p) {
                None => Err(corruption("VersionEdit: comparator name")),
                Some((n, name)) => {
                    self.comparator = utf8_lossy(name);
                    self.has_comparator = true;
                    Ok(n)
                },
            },
            Tag::LogNumber => match get_varint64(p) {
                None => Err(corruption("VersionEdit: log_number")),
                Some((n, x)) => {
                    self.log_number = x;
                    self.has_log_number = true;
                    Ok(n)
                },
            },
            Tag::NextFileNumber => match get_varint64(p) {
                None => Err(corruption("VersionEdit: next_file_number")),
                Some((n, x)) => {
                    self.next_file_number = x;
                    self.has_next_file_number = true;
                    Ok(n)
                },
            },
            Tag::LastSequence => match get_varint64(p) {
                None => Err(corruption("VersionEdit: last_sequence")),
                Some((n, x)) => {
                    self.last_sequence = x;
                    self.has_last_sequence = true;
                    Ok(n)
                },
            },
            Tag::PrevLogNumber => match get_varint64(p) {
                None => Err(corruption("VersionEdit: prev_log_number")),
                Some((n, x)) => {
                    self.prev_log_number = x;
                    self.has_prev_log_number = true;
                    Ok(n)
                },
            },
            Tag::CompactPointer => {
                let (n0, level) = match Self::get_level(p) {
                    Some(x) => x,
                    None => return Err(corruption("VersionEdit: compact_pointer level")),
                };
                let (n1, key) = match Self::get_internal_key(&p[n0..p.len()]) {
                    Some(x) => x,
                    None => return Err(corruption("VersionEdit: compact_pointer key")),
                };
                self.set_compact_pointer(level as i32, key);
                Ok(n0 + n1)
            },
            Tag::DeleteFile => {
                let (n0, level) = match Self::get_level(p) {
                    Some(x) => x,
                    None => return Err(corruption("VersionEdit: delete_files level")),
                };
                proof {
                    crate::util::coding::lemma_varint_size_bounds(p@.skip(n0 as int), 10);
                }
                let (n1, file_number) = match get_varint64(&p[n0..p.len()]) {
                    Some(x) => x,
                    None => return Err(corruption("VersionEdit: delete_files file_number")),
                };
                self.remove_file(level as i32, file_number);
                Ok(n0 + n1)
            },
            Tag::NewFile => self.decode_new_file(p),
        }
    }

    fn decode_new_file(&mut self, p: &[u8]) -> (r: Result<usize, DbError>)
        ensures
            match spec_new_file(p@) {
                Ok((n, f)) => r matches Ok(k) && k == n && final(self)@ == (EditModel {
                    new_files: old(self)@.new_files.push(f),
                    ..old(self)@
                }),
                Err(part) => r matches Err(DbError::Corruption(s)) && s@ == field_error(
                    Tag::NewFile,
                    part,
                ) && final(self)@ == old(self)@,
            },
            r matches Ok(k) ==> k <= p@.len(),
    {
        proof {
            crate::util::coding::lemma_varint_size_bounds(p@, 5);
        }
        let (n0, level) = match Self::get_level(p) {
            Some(x) => x,
            None => return Err(corruption("VersionEdit: new_file level")),
        };
        let mut index = n0;
        proof {
            crate::util::coding::lemma_varint_size_bounds(p@.skip(index as int), 10);
        }
        let (n1, number) = match get_varint64(&p[index..p.len()]) {
            Some(x) => x,
            None => return Err(corruption("VersionEdit: new_file number")),
        };
        index = index + n1;
        proof {
            crate::util::coding::lemma_varint_size_bounds(p@.skip(index as int), 10);
        }
        let (n2, file_size) = match get_varint64(&p[index..p.len()]) {
            Some(x) => x,
            None => return Err(corruption("VersionEdit: new_file file_size")),
        };
        index = index + n2;
        let (n3, smallest) = match Self::get_internal_key(&p[index..p.len()]) {
            Some(x) => x,
            None => return Err(corruption("VersionEdit: new_file smallest")),
        };
        index = index + n3;
        let (n4, largest) = match Self::get_internal_key(&p[index..p.len()]) {
            Some(x) => x,
            None => return Err(corruption("VersionEdit: new_file largest")),
        };
        index = index + n4;
        self.add_file(level as i32, number, file_size, smallest, largest);
        Ok(index)
    }

    /// Replaces this edit by the one encoded in `src`. Decoding stops at the first
    /// corrupt field, leaving the fields decoded before it.
    pub fn decode_from(&mut self, src: &[u8]) -> (r: Result<(), DbError>)
        ensures
            ({
                let (m, err) = spec_decode_from(src@, 0, EditModel::empty());
                &&& final(self)@ == m
                &&& match err {
                    None => r is Ok,
                    Some(msg) => r matches Err(DbError::Corruption(s)) && s@ == msg,
                }
            }),
    {
        reveal(spec_decode_from);
        self.clear();
        let mut index: usize = 0;
        while index < src.len()
            invariant
                index <= src@.len(),
                spec_decode_from(src@, 0, EditModel::empty()) == spec_decode_from(
                    src@,
                    index as nat,
                    self@,
                ),
            decreases src@.len() - index,
        {
            proof {
                reveal(spec_decode_from);
            }
            let rest = &src[index..src.len()];
            assert(rest@ =~= src@.skip(index as int));
            proof {
                crate::util::coding::lemma_varint_size_bounds(rest@, 5);
            }
            let (bytes_read, tag_u) = match get_varint32(rest) {
                Some(x) => x,
                None => return Err(corruption("VersionEdit: invalid varint32")),
            };
            let tag_byte = tag_u as u8;
            assert(tag_byte == (tag_u % 256) as u8) by (bit_vector)
                requires
                    tag_byte == tag_u as u8,
            ;
            let tag = match Tag::try_from_u8(tag_byte) {
                Ok(t) => t,
                Err(_) => return Err(DbError::Corruption(format_invalid_tag(tag_u))),
            };
            let field_start = index + bytes_read;
            assert(src@.skip(field_start as int) =~= src@.skip(index as int + bytes_read as int));
            match self.decode_field(tag, &src[field_start..src.len()]) {
                Ok(n) => {
                    index = field_start + n;
                },
                Err(e) => return Err(e),
            }
        }
        Ok(())
    }
}

// ---------------------------------------------------------------------------
// Text
// ---------------------------------------------------------------------------
/// An internal key as text, or `(bad)` when it is too short to parse.
pub open spec fn key_text(k: Seq<u8>) -> Seq<char> {
    if k.len() >= 8 {
        internal_key_text(lossy_text(user_part(k)), (tag_part(k) / 256) as u64, (tag_part(k) % 256) as u8)
    } else {
        "(bad)"@
    }
}

/// A line `label` and a number, when the number is set.
pub open spec fn number_line(label: Seq<char>, v: Option<u64>) -> Seq<char> {
    match v {
        Some(n) => label + decimal(n as nat),
        None => Seq::empty(),
    }
}

/// The lines of the compact pointers.
pub open spec fn compact_pointers_text(s: Seq<(i32, Seq<u8>)>) -> Seq<char>
    decreases s.len(),
{
    if s.len() == 0 {
        Seq::empty()
    } else {
        compact_pointers_text(s.drop_last()) + "\n  CompactPointer: "@ + int_decimal(s.last().0 as int)
            + " "@ + key_text(s.last().1)
    }
}

/// The lines of the removed files.
pub open spec fn deleted_files_text(s: Seq<(i32, u64)>) -> Seq<char>
    decreases s.len(),
{
    if s.len() == 0 {
        Seq::empty()
    } else {
        deleted_files_text(s.drop_last()) + "\n  RemoveFiles: "@ + int_decimal(s.last().0 as int) + " "@
            + decimal(s.last().1 as nat)
    }
}

/// The lines of the added files.
pub open spec fn new_files_text(s: Seq<(i32, FileMetaModel)>) -> Seq<char>
    decreases s.len(),
{
    if s.len() == 0 {
        Seq::empty()
    } else {
        new_files_text(s.drop_last()) + new_file_line(s.last().0, s.last().1)
    }
}

/// The line of one added file.
pub open spec fn new_file_line(level: i32, f: FileMetaModel) -> Seq<char> {
    "\n  AddFile: "@ + int_decimal(level as int) + " "@ + decimal(f.number as nat) + " "@ + decimal(
        f.file_size as nat,
    ) + " "@ + key_text(f.smallest) + " .. "@ + key_text(f.largest)
}

/// The first line of an edit's text and the lines of its single fields.
pub open spec fn edit_header_text(m: EditModel) -> Seq<char> {
    "VersionEdit {"@ + match m.comparator {
        Some(c) => "\n  Comparator: "@ + c,
        None => Seq::empty(),
    } + number_line("\n  LogNumber: "@, m.log_number) + number_line(
        "\n  PrevLogNumber: "@,
        m.prev_log_number,
    ) + number_line("\n  NextFileNumber: "@, m.next_file_number) + number_line(
        "\n  LastSequence: "@,
        m.last_sequence,
    )
}

/// An edit as text: each field that is set on a line of its own, then the compact
/// pointers, the removed files in order and the added files.
pub open spec fn edit_text(m: EditModel) -> Seq<char> {
    edit_header_text(m) + compact_pointers_text(m.compact_pointers) + deleted_files_text(
        sorted_pairs(m.deleted_files),
    ) + new_files_text(m.new_files) + "\n}\n"@
}

/// Every key an edit holds can be parsed.
pub open spec fn keys_parsable(m: EditModel) -> bool {
    &&& forall|i: int| 0 <= i < m.compact_pointers.len() ==> parsable_internal_key(#[trigger] m.compact_pointers[i].1)
    &&& forall|i: int|
        0 <= i < m.new_files.len() ==> parsable_internal_key((#[trigger] m.new_files[i]).1.smallest)
            && parsable_internal_key(m.new_files[i].1.largest)
}

/// Appends `label` and the number `n`.
fn push_number(s: &mut String, label: &str, n: u64)
    ensures
        final(s)@ == old(s)@ + label@ + decimal(n as nat),
{
    s.append(label);
    let t = format_u64(n);
    s.append(t.as_str());
}

/// Appends the text of `key`.
fn push_key(s: &mut String, key: &InternalKey)
    requires
        parsable_internal_key(key@),
    ensures
        final(s)@ == old(s)@ + key_text(key@),
{
    let t = key.debug_string();
    proof {
        reveal_strlit("(bad)");
    }
    s.append(t.as_str());
}

/// Appends the lines of the compact pointers.
fn push_compact_pointers(s: &mut String, cps: &Vec<(i32, InternalKey)>)
    requires
        forall|i: int| 0 <= i < cps@.len() ==> parsable_internal_key(#[trigger] cps@[i].1@),
    ensures
        final(s)@ == old(s)@ + compact_pointers_text(cps@.map_values(|p: (i32, InternalKey)| (p.0, p.1@))),
{
    let ghost v = cps@.map_values(|p: (i32, InternalKey)| (p.0, p.1@));
    let ghost head = s@;
    let mut i: usize = 0;
    while i < cps.len()
        invariant
            i <= cps@.len(),
            v == cps@.map_values(|p: (i32, InternalKey)| (p.0, p.1@)),
            forall|j: int| 0 <= j < cps@.len() ==> parsable_internal_key(#[trigger] cps@[j].1@),
            s@ == head + compact_pointers_text(v.take(i as int)),
        decreases cps@.len() - i,
    {
        let (level, key) = &cps[i];
        let ghost before = s@;
        proof {
            assert(v.take(i + 1).drop_last() =~= v.take(i as int));
            assert(v.take(i + 1).last() == (*level, key@));
            assert(parsable_internal_key(cps@[i as int].1@));
        }
        s.append("\n  CompactPointer: ");
        let l = format_i32(*level);
        s.append(l.as_str());
        s.append(" ");
        push_key(s, key);
        proof {
            assert(s@ =~= head + compact_pointers_text(v.take(i + 1)));
        }
        i = i + 1;
    }
    proof {
        assert(v.take(i as int) =~= v);
    }
}

/// Appends the lines of the removed files.
fn push_deleted_files(s: &mut String, deleted: &Vec<(i32, u64)>)
    ensures
        final(s)@ == old(s)@ + deleted_files_text(deleted@),
{
    let ghost head = s@;
    let mut j: usize = 0;
    while j < deleted.len()
        invariant
            j <= deleted@.len(),
            s@ == head + deleted_files_text(deleted@.take(j as int)),
        decreases deleted@.len() - j,
    {
        let (level, file) = deleted[j];
        proof {
            assert(deleted@.take(j + 1).drop_last() =~= deleted@.take(j as int));
        }
        s.append("\n  RemoveFiles: ");
        let l = format_i32(level);
        s.append(l.as_str());
        push_number(s, " ", file);
        proof {
            assert(s@ =~= head + deleted_files_text(deleted@.take(j + 1)));
        }
        j = j + 1;
    }
    proof {
        assert(deleted@.take(j as int) =~= deleted@);
    }
}

/// Appends the line of one added file.
fn push_new_file_line(s: &mut String, level: i32, f: &FileMetaData)
    requires
        parsable_internal_key(f.smallest@),
        parsable_internal_key(f.largest@),
    ensures
        final(s)@ == old(s)@ + new_file_line(level, f@),
{
    let ghost head = s@;
    s.append("\n  AddFile: ");
    let l = format_i32(level);
    s.append(l.as_str());
    push_number(s, " ", f.number);
    push_number(s, " ", f.file_size);
    s.append(" ");
    push_key(s, &f.smallest);
    s.append(" .. ");
    push_key(s, &f.largest);
    assert(s@ =~= head + new_file_line(level, f@));
}

/// Appends the lines of the added files.
fn push_new_files(s: &mut String, files: &Vec<(i32, FileMetaData)>)
    requires
        forall|i: int|
            0 <= i < files@.len() ==> parsable_internal_key((#[trigger] files@[i]).1.smallest@)
                && parsable_internal_key(files@[i].1.largest@),
    ensures
        final(s)@ == old(s)@ + new_files_text(files@.map_values(|p: (i32, FileMetaData)| (p.0, p.1@))),
{
    let ghost v = files@.map_values(|p: (i32, FileMetaData)| (p.0, p.1@));
    let ghost head = s@;
    let mut k: usize = 0;
    while k < files.len()
        invariant
            k <= files@.len(),
            v == files@.map_values(|p: (i32, FileMetaData)| (p.0, p.1@)),
            forall|i: int|
                0 <= i < files@.len() ==> parsable_internal_key((#[trigger] files@[i]).1.smallest@)
                    && parsable_internal_key(files@[i].1.largest@),
            s@ == head + new_files_text(v.take(k as int)),
        decreases files@.len() - k,
    {
        let (level, f) = &files[k];
        proof {
            assert(v.take(k + 1).drop_last() =~= v.take(k as int));
            assert(v.take(k + 1).last() == (*level, f@));
            assert(parsable_internal_key(files@[k as int].1.smallest@));
        }
        push_new_file_line(s, *level, f);
        proof {
            assert(s@ =~= head + new_files_text(v.take(k + 1)));
        }
        k = k + 1;
    }
    proof {
        assert(v.take(k as int) =~= v);
    }
}

impl VersionEdit {
    /// The edit as text, for logs.
    pub fn debug_string(&self) -> (r: String)
        requires
            keys_parsable(self@),
        ensures
            r@ == edit_text(self@),
    {
        let mut s = self.header_string();
        proof {
            assert forall|i: int| 0 <= i < self.compact_pointers@.len() implies parsable_internal_key(
                #[trigger] self.compact_pointers@[i].1@,
            ) by {
                assert(self@.compact_pointers[i].1 == self.compact_pointers@[i].1@);
            }
            assert forall|i: int| 0 <= i < self.new_files@.len() implies parsable_internal_key(
                (#[trigger] self.new_files@[i]).1.smallest@,
            ) && parsable_internal_key(self.new_files@[i].1.largest@) by {
                assert(self@.new_files[i].1 == self.new_files@[i].1@);
            }
        }
        push_compact_pointers(&mut s, &self.compact_pointers);
        let deleted = btree_pairs_in_order(&self.deleted_files);
        push_deleted_files(&mut s, &deleted);
        push_new_files(&mut s, &self.new_files);
        s.append("\n}\n");
        proof {
            assert(s@ =~= edit_text(self@));
        }
        s
    }

    /// The first line of the edit's text and the lines of its single fields.
    fn header_string(&self) -> (r: String)
        ensures
            r@ == edit_header_text(self@),
    {
        let ghost m = self@;
        let ghost t1 = "VersionEdit {"@ + match m.comparator {
            Some(c) => "\n  Comparator: "@ + c,
            None => Seq::empty(),
        };
        let ghost t2 = t1 + number_line("\n  LogNumber: "@, m.log_number);
        let ghost t3 = t2 + number_line("\n  PrevLogNumber: "@, m.prev_log_number);
        let ghost t4 = t3 + number_line("\n  NextFileNumber: "@, m.next_file_number);
        let ghost t5 = t4 + number_line("\n  LastSequence: "@, m.last_sequence);
        let mut s = String::from_str("VersionEdit {");
        if self.has_comparator {
            s.append("\n  Comparator: ");
            s.append(self.comparator.as_str());
        }
        assert(s@ =~= t1);
        if self.has_log_number {
            push_number(&mut s, "\n  LogNumber: ", self.log_number);
        }
        assert(s@ =~= t2);
        if self.has_prev_log_number {
            push_number(&mut s, "\n  PrevLogNumber: ", self.prev_log_number);
        }
        assert(s@ =~= t3);
        if self.has_next_file_number {
            push_number(&mut s, "\n  NextFileNumber: ", self.next_file_number);
        }
        assert(s@ =~= t4);
        if self.has_last_sequence {
            push_number(&mut s, "\n  LastSequence: ", self.last_sequence);
        }
        assert(s@ =~= t5);
        s
    }
}

} // verus!
