use cutr::extract::{extract_bytes, extract_chars, extract_fields, select_bytes};

#[test]
fn test_extract_chars() {
    assert_eq!(extract_chars("", &[0..1]), "".to_string());
    assert_eq!(extract_chars("ábc", &[0..1]), "á".to_string());
    assert_eq!(extract_chars("ábc", &[0..1, 2..3]), "ác".to_string());
    assert_eq!(extract_chars("ábc", &[0..3]), "ábc".to_string());
    assert_eq!(extract_chars("ábc", &[2..3, 1..2]), "cb".to_string());
    assert_eq!(extract_chars("ábc", &[0..1, 1..2, 4..5]), "áb".to_string());
}

#[test]
fn test_extract_bytes() {
    assert_eq!(extract_bytes("ábc", &[0..1]), "�".to_string());
    assert_eq!(extract_bytes("ábc", &[0..2]), "á".to_string());
    assert_eq!(extract_bytes("ábc", &[0..3]), "áb".to_string());
    assert_eq!(extract_bytes("ábc", &[0..4]), "ábc".to_string());
    assert_eq!(extract_bytes("ábc", &[3..4, 2..3]), "cb".to_string());
    assert_eq!(extract_bytes("ábc", &[0..2, 5..6]), "á".to_string());
}

#[test]
fn adjacent_ranges_compose() {
    assert_eq!(extract_chars("éz", &[0..1, 1..2]), extract_chars("éz", &[0..2]));
    assert_eq!(extract_chars("éz", &[0..2]), "éz".to_string());
}

#[test]
fn swapped_ranges_swap_output() {
    let forward = extract_chars("abcdef", &[0..2, 3..5]);
    let backward = extract_chars("abcdef", &[3..5, 0..2]);
    assert_eq!(forward, "abde".to_string());
    assert_eq!(backward, "deab".to_string());
}

#[test]
fn overlapping_ranges_duplicate() {
    assert_eq!(extract_chars("abcd", &[0..3, 1..2]), "abcb".to_string());
}

#[test]
fn range_past_end_is_clamped() {
    assert_eq!(extract_chars("abc", &[1..10]), "bc".to_string());
    assert_eq!(extract_chars("abc", &[5..10]), "".to_string());
}

#[test]
fn bytes_split_inside_character() {
    // "é" is two bytes; the second alone is a continuation byte.
    assert!(extract_bytes("aé", &[2..3]).contains('\u{FFFD}'));
    assert!(extract_bytes("€", &[0..2]).contains('\u{FFFD}'));
    assert_eq!(extract_bytes("aé", &[1..3]), "é".to_string());
}

#[test]
fn selected_bytes_are_exact() {
    assert_eq!(select_bytes("ábc", &[3..4, 0..1, 9..10]), vec![b'c', 0xc3]);
}

#[test]
fn fields_in_range_order() {
    let record: Vec<String> = vec!["Captain".to_string(), "Sham".to_string(), "12345".to_string()];
    assert_eq!(
        extract_fields(&record, &[0..1, 2..3]),
        vec!["Captain".to_string(), "12345".to_string()]
    );
    assert_eq!(extract_fields(&record, &[0..1, 3..4]), vec!["Captain".to_string()]);
    assert_eq!(
        extract_fields(&record, &[1..3, 0..1]),
        vec!["Sham".to_string(), "12345".to_string(), "Captain".to_string()]
    );
}

#[test]
fn fields_of_empty_record() {
    let record: Vec<String> = Vec::new();
    assert!(extract_fields(&record, &[0..1]).is_empty());
}
