use todo_store::append::make_new_records;
use todo_store::codec::{decode_store, encode_records, parse_done_field, parse_index_field};
use todo_store::integrity::check_records;
use todo_store::record::{Record, StoreError};
use todo_store::rewrite::{mark_records, reset_records, rm_records, unmark_records};

fn rec(index: u32, action: &str, done: bool) -> Record {
    Record { index, action: action.to_string(), done }
}

fn assert_store(records: &[Record], expected: &[(u32, &str, bool)]) {
    assert_eq!(records.len(), expected.len());
    for (r, (i, a, d)) in records.iter().zip(expected.iter()) {
        assert_eq!(r.index, *i);
        assert_eq!(r.action, *a);
        assert_eq!(r.done, *d);
    }
}

#[test]
fn add_two_to_empty_store() {
    let empty: Vec<Record> = Vec::new();
    let next = check_records(&empty).unwrap();
    assert_eq!(next, 1);
    let added = make_new_records(&vec!["buy milk".to_string(), "call mom".to_string()], next);
    assert_store(&added, &[(1, "buy milk", false), (2, "call mom", false)]);
}

#[test]
fn done_marks_first_record() {
    let store = vec![rec(1, "buy milk", false), rec(2, "call mom", false)];
    let out = mark_records(&store, vec![1], false);
    assert_store(&out, &[(1, "buy milk", true), (2, "call mom", false)]);
}

#[test]
fn rm_renumbers_survivor() {
    let store = vec![rec(1, "buy milk", true), rec(2, "call mom", false)];
    let out = rm_records(&store, vec![1]);
    assert_store(&out, &[(1, "call mom", false)]);
}

#[test]
fn reset_empties_store_and_next_index_is_one() {
    let store = vec![rec(1, "call mom", false)];
    let out = reset_records(&store);
    assert!(out.is_empty());
    let next = check_records(&out).unwrap();
    assert_eq!(next, 1);
    let added = make_new_records(&vec!["fresh start".to_string()], next);
    assert_store(&added, &[(1, "fresh start", false)]);
}

#[test]
fn reset_of_empty_store_is_empty() {
    let out = reset_records(&Vec::new());
    assert!(out.is_empty());
    assert_eq!(check_records(&out).unwrap(), 1);
}

#[test]
fn all_flag_makes_explicit_indexes_redundant() {
    let store = vec![rec(1, "a", false), rec(2, "b", false)];
    let with_indexes = mark_records(&store, vec![2], true);
    let without = mark_records(&store, vec![], true);
    assert_store(&with_indexes, &[(1, "a", true), (2, "b", true)]);
    assert_store(&without, &[(1, "a", true), (2, "b", true)]);
}

#[test]
fn gap_in_indexes_fails_integrity() {
    let store = vec![rec(1, "buy milk", false), rec(3, "call mom", false)];
    let err = check_records(&store).unwrap_err();
    assert_eq!(err, StoreError::IndexIntegrity);
    assert_eq!(err.message(), "incorrect index found");
}

#[test]
fn duplicate_index_fails_integrity() {
    let store = vec![rec(1, "a", false), rec(1, "b", false)];
    assert_eq!(check_records(&store).unwrap_err(), StoreError::IndexIntegrity);
}

#[test]
fn zero_based_store_fails_integrity() {
    let store = vec![rec(0, "a", false)];
    assert_eq!(check_records(&store).unwrap_err(), StoreError::IndexIntegrity);
}

#[test]
fn check_returns_next_free_index() {
    let store = vec![rec(1, "a", false), rec(2, "b", true), rec(3, "c", false)];
    assert_eq!(check_records(&store).unwrap(), 4);
}

#[test]
fn append_continues_numbering() {
    let store = vec![rec(1, "a", false), rec(2, "b", false)];
    let next = check_records(&store).unwrap();
    let added = make_new_records(&vec!["c".to_string(), "d".to_string()], next);
    assert_store(&added, &[(3, "c", false), (4, "d", false)]);
}

#[test]
fn rm_middle_closes_gap() {
    let store = vec![rec(1, "a", false), rec(2, "b", true), rec(3, "c", false)];
    let out = rm_records(&store, vec![2]);
    assert_store(&out, &[(1, "a", false), (2, "c", false)]);
}

#[test]
fn unknown_index_is_a_no_op() {
    let store = vec![rec(1, "a", false), rec(2, "b", true)];
    let removed = rm_records(&store, vec![5]);
    assert_store(&removed, &[(1, "a", false), (2, "b", true)]);
    let marked = mark_records(&store, vec![7], false);
    assert_store(&marked, &[(1, "a", false), (2, "b", true)]);
    let unmarked = unmark_records(&store, vec![9], false);
    assert_store(&unmarked, &[(1, "a", false), (2, "b", true)]);
}

#[test]
fn mark_done_twice_changes_nothing_more() {
    let store = vec![rec(1, "a", false), rec(2, "b", false)];
    let once = mark_records(&store, vec![2], false);
    let twice = mark_records(&once, vec![2], false);
    assert_store(&once, &[(1, "a", false), (2, "b", true)]);
    assert_store(&twice, &[(1, "a", false), (2, "b", true)]);
}

#[test]
fn undo_inverts_done() {
    let store = vec![rec(1, "a", false), rec(2, "b", false)];
    let marked = mark_records(&store, vec![1], false);
    let undone = unmark_records(&marked, vec![1], false);
    assert_store(&undone, &[(1, "a", false), (2, "b", false)]);
}

#[test]
fn mark_all_sets_every_flag() {
    let store = vec![rec(1, "a", false), rec(2, "b", false), rec(3, "c", true)];
    let out = mark_records(&store, vec![], true);
    assert_store(&out, &[(1, "a", true), (2, "b", true), (3, "c", true)]);
    let back = unmark_records(&out, vec![], true);
    assert_store(&back, &[(1, "a", false), (2, "b", false), (3, "c", false)]);
}

#[test]
fn encode_writes_one_line_per_record() {
    let store = vec![rec(1, "buy milk", false), rec(2, "call mom", true)];
    let bytes = encode_records(&store);
    assert_eq!(bytes, b"1,buy milk,false\n2,call mom,true\n".to_vec());
}

#[test]
fn encode_empty_store_is_empty() {
    let bytes = encode_records(&Vec::new());
    assert!(bytes.is_empty());
}

#[test]
fn decode_reads_records_back() {
    let bytes = b"1,buy milk,false\n2,call mom,true\n".to_vec();
    let out = decode_store(&bytes).unwrap();
    assert_store(&out, &[(1, "buy milk", false), (2, "call mom", true)]);
}

#[test]
fn decode_empty_content_is_empty_store() {
    let out = decode_store(&Vec::new()).unwrap();
    assert!(out.is_empty());
}

#[test]
fn round_trip_preserves_text_with_delimiters() {
    let store = vec![rec(1, "milk, eggs, \"bread\"", false), rec(2, "a\nb", true)];
    let bytes = encode_records(&store);
    assert_ne!(bytes, b"1,milk, eggs, \"bread\",false\n".to_vec());
    let out = decode_store(&bytes).unwrap();
    assert_store(&out, &[(1, "milk, eggs, \"bread\"", false), (2, "a\nb", true)]);
}

#[test]
fn decode_rejects_wrong_field_count() {
    let bytes = b"1,only two\n2,fields here\n".to_vec();
    assert_eq!(decode_store(&bytes).unwrap_err(), StoreError::MalformedRecord);
}

#[test]
fn decode_rejects_bad_index_field() {
    let bytes = b"one,task,false\n".to_vec();
    assert_eq!(decode_store(&bytes).unwrap_err(), StoreError::MalformedRecord);
}

#[test]
fn decode_rejects_bad_done_field() {
    let bytes = b"1,task,yes\n".to_vec();
    assert_eq!(decode_store(&bytes).unwrap_err(), StoreError::MalformedRecord);
}

#[test]
fn decode_rejects_invalid_utf8() {
    let bytes = vec![0xffu8, 0xfe, 0x2c, 0x61, 0x2c, 0x62];
    assert_eq!(decode_store(&bytes).unwrap_err(), StoreError::MalformedRecord);
}

#[test]
fn malformed_error_has_its_message() {
    assert_eq!(StoreError::MalformedRecord.message(), "malformed record line");
}

#[test]
fn index_field_accepts_plain_and_signed_decimal() {
    assert_eq!(parse_index_field(&"12".to_string()), Some(12));
    assert_eq!(parse_index_field(&"+7".to_string()), Some(7));
    assert_eq!(parse_index_field(&"4294967295".to_string()), Some(u32::MAX));
}

#[test]
fn index_field_rejects_garbage_and_overflow() {
    assert_eq!(parse_index_field(&"".to_string()), None);
    assert_eq!(parse_index_field(&"+".to_string()), None);
    assert_eq!(parse_index_field(&"12a".to_string()), None);
    assert_eq!(parse_index_field(&" 12".to_string()), None);
    assert_eq!(parse_index_field(&"-1".to_string()), None);
    assert_eq!(parse_index_field(&"4294967296".to_string()), None);
}

#[test]
fn done_field_is_exactly_true_or_false() {
    assert_eq!(parse_done_field(&"true".to_string()), Some(true));
    assert_eq!(parse_done_field(&"false".to_string()), Some(false));
    assert_eq!(parse_done_field(&"TRUE".to_string()), None);
    assert_eq!(parse_done_field(&"1".to_string()), None);
    assert_eq!(parse_done_field(&"".to_string()), None);
}

#[test]
fn rewrite_validates_whatever_the_input_was() {
    let store = vec![rec(9, "a", false), rec(4, "b", true), rec(4, "c", false)];
    let out = mark_records(&store, vec![4], false);
    assert_store(&out, &[(1, "a", false), (2, "b", true), (3, "c", false)]);
    assert_eq!(check_records(&out).unwrap(), 4);
}

#[test]
fn consumed_target_applies_to_first_carrier_only() {
    let store = vec![rec(4, "a", false), rec(4, "b", false)];
    let out = mark_records(&store, vec![4], false);
    assert_store(&out, &[(1, "a", true), (2, "b", false)]);
}
