use mencius::db::dbformat::InternalKey;
use mencius::db::dbformat::ValueType::{TypeDeletion, TypeValue};
use mencius::db::version_edit::VersionEdit;

fn test_encode_decode(edit: &VersionEdit) {
    let encoded = edit.encode_to();
    let mut parsed = VersionEdit::new();
    let d = parsed.decode_from(&encoded);
    assert!(d.is_ok());
    let encoded2 = parsed.encode_to();
    assert_eq!(encoded, encoded2);
}

#[test]
fn test_version_edit() {
    const BIG: u64 = 1 << 50;

    let mut edit = VersionEdit::new();
    for i in 0..4 {
        println!("edit: {}", edit.debug_string());
        test_encode_decode(&edit);
        edit.add_file(
            3,
            BIG + 300 + i,
            BIG + 400 + i,
            InternalKey::new(b"foo", BIG + 500 + i, TypeValue),
            InternalKey::new(b"zoo", BIG + 600 + i, TypeDeletion),
        );
        edit.remove_file(4, BIG + 700 + i);
        edit.set_compact_pointer(i as i32, InternalKey::new(b"x", BIG + 900 + i, TypeValue));
    }

    edit.set_comparator_name("foo");
    edit.set_log_number(BIG + 100);
    edit.set_next_file(BIG + 200);
    edit.set_last_sequence(BIG + 1000);
    test_encode_decode(&edit);
}

#[test]
fn empty_edit_text() {
    let edit = VersionEdit::new();
    assert_eq!(edit.debug_string(), "VersionEdit {\n}\n");
}

#[test]
fn edit_text_lists_fields_and_files_in_order() {
    let mut edit = VersionEdit::new();
    edit.set_comparator_name("cmp");
    edit.set_log_number(7);
    edit.remove_file(2, 9);
    edit.remove_file(1, 20);
    edit.add_file(
        0,
        5,
        100,
        InternalKey::new(b"a", 1, TypeValue),
        InternalKey::new(b"b", 2, TypeDeletion),
    );
    assert_eq!(
        edit.debug_string(),
        "VersionEdit {\n  Comparator: cmp\n  LogNumber: 7\n  RemoveFiles: 1 20\n  RemoveFiles: 2 9\n  AddFile: 0 5 100 'a' @ 1 : 1 .. 'b' @ 2 : 0\n}\n"
    );
}

#[test]
fn decode_rejects_unknown_tag() {
    let mut edit = VersionEdit::new();
    // Tag 100 is not a field of a version edit.
    let r = edit.decode_from(&[100]);
    assert!(r.is_err());
}

#[test]
fn decode_rejects_truncated_varint() {
    let mut edit = VersionEdit::new();
    // Tag 2 (log number) followed by an unfinished varint.
    assert!(edit.decode_from(&[2, 0x80]).is_err());
}

#[test]
fn decoded_edit_matches_encoded_fields() {
    let mut edit = VersionEdit::new();
    edit.set_log_number(42);
    edit.set_next_file(43);
    edit.set_last_sequence(44);
    let bytes = edit.encode_to();
    let mut parsed = VersionEdit::new();
    assert!(parsed.decode_from(&bytes).is_ok());
    assert_eq!(parsed.encode_to(), bytes);
    assert_eq!(
        parsed.debug_string(),
        "VersionEdit {\n  LogNumber: 42\n  NextFileNumber: 43\n  LastSequence: 44\n}\n"
    );
}

#[test]
fn prev_log_number_round_trips_under_tag_nine() {
    let mut edit = VersionEdit::new();
    edit.set_prev_log_number(5);
    let bytes = edit.encode_to();
    assert_eq!(bytes, vec![9, 5]);
    let mut parsed = VersionEdit::new();
    assert!(parsed.decode_from(&[9, 5]).is_ok());
    assert_eq!(parsed.encode_to(), vec![9, 5]);
    let mut other = VersionEdit::new();
    assert!(other.decode_from(&[8, 5]).is_err());
}
