use csv::StringRecord;
use cutr::extract_bytes;
use cutr::extract_chars;
use cutr::extract_fields;

#[test]
fn test_extract_chars() {
    assert_eq!(extract_chars("", &[0..1]), "".to_string());
    assert_eq!(extract_chars("ábc", &[0..1]), "á".to_string());
    assert_eq!(extract_chars("ábc", &[0..1, 2..3]), "ác".to_string());
    assert_eq!(extract_chars("ábc", &[0..3]), "ábc".to_string());
    assert_eq!(extract_chars("ábc", &[2..3, 1..2]), "cb".to_string());
    assert_eq!(extract_chars("ábc", &[0..1, 1..2, 4..5]), "áb".to_string());
}

#[test]
fn test_extract_bytes() {
    assert_eq!(extract_bytes("ábc", &[0..1]), "�".to_string());
    assert_eq!(extract_bytes("ábc", &[0..2]), "á".to_string());
    assert_eq!(extract_bytes("ábc", &[0..3]), "áb".to_string());
    assert_eq!(extract_bytes("ábc", &[0..4]), "ábc".to_string());
    assert_eq!(extract_bytes("ábc", &[3..4, 2..3]), "cb".to_string());
    assert_eq!(extract_bytes("ábc", &[0..2, 5..6]), "á".to_string());
}

#[test]
fn test_extract_fields() {
    let rec = StringRecord::from(vec!["Captain", "Sham", "12345"]);

    assert_eq!(extract_fields(&rec, &[0..1]), &["Captain"]);
    assert_eq!(extract_fields(&rec, &[1..2]), &["Sham"]);
    assert_eq!(extract_fields(&rec, &[0..1, 2..3]), &["Captain", "12345"]);
    assert_eq!(extract_fields(&rec, &[0..1, 3..4]), &["Captain"]);
    assert_eq!(extract_fields(&rec, &[1..2, 0..1]), &["Sham", "Captain"]);
}

#[test]
fn char_ranges_replay_in_given_order() {
    // ranges are replayed verbatim: not sorted, not merged, overlaps repeat
    assert_eq!(extract_chars("abcde", &[2..5]), "cde".to_string());
    assert_eq!(extract_chars("abcde", &[2..3, 0..1]), "ca".to_string());
    assert_eq!(extract_chars("abcde", &[0..2, 1..3]), "abbc".to_string());
}

#[test]
fn out_of_range_indices_are_skipped() {
    assert_eq!(extract_chars("ab", &[0..10]), "ab".to_string());
    assert_eq!(extract_chars("ab", &[5..10]), "".to_string());
    assert_eq!(extract_bytes("ab", &[0..10]), "ab".to_string());
    assert_eq!(extract_bytes("ab", &[5..10]), "".to_string());
}

#[test]
fn sliced_multibyte_char_decodes_lossily() {
    // the second byte of a two-byte character is not valid UTF-8 alone
    assert_eq!(extract_bytes("ábc", &[1..2]), "�".to_string());
    // both bytes, picked by two adjacent ranges, decode exactly
    assert_eq!(extract_bytes("ábc", &[0..1, 1..2]), "á".to_string());
}

#[test]
fn field_extraction_keeps_given_order() {
    let rec = StringRecord::from(vec!["Captain", "Sham", "12345"]);
    assert_eq!(extract_fields(&rec, &[1..2, 0..1]), &["Sham", "Captain"]);
    assert_eq!(
        extract_fields(&rec, &[0..3]),
        &["Captain", "Sham", "12345"]
    );
    let empty: Vec<String> = Vec::new();
    assert_eq!(extract_fields(&rec, &[4..6]), empty);
}
