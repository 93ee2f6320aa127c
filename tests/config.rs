use cutr::config::{build_config, Extract};

fn files() -> Vec<String> {
    vec!["-".to_string()]
}

#[test]
fn delimiter_must_be_one_byte() {
    let res = build_config(files(), ",,", Some("1"), None, None);
    assert_eq!(res.unwrap_err(), "--delim \",,\" must be a single byte");
    let res = build_config(files(), "é", Some("1"), None, None);
    assert_eq!(res.unwrap_err(), "--delim \"é\" must be a single byte");
}

#[test]
fn selection_is_required() {
    let res = build_config(files(), "\t", None, None, None);
    assert_eq!(res.unwrap_err(), "Must have --fields, --bytes, or --chars");
}

#[test]
fn bytes_selection() {
    let config = build_config(files(), ",", Some("1,3-4"), None, None).unwrap();
    assert_eq!(config.files, files());
    assert_eq!(config.delimiter, b',');
    match config.extract {
        Extract::Bytes(list) => assert_eq!(list, vec![0..1, 2..4]),
        other => panic!("unexpected selection {:?}", other),
    }
}

#[test]
fn chars_and_fields_selection() {
    let config = build_config(files(), "\t", None, Some("2"), None).unwrap();
    assert!(matches!(config.extract, Extract::Chars(ref l) if *l == vec![1..2]));
    let config = build_config(files(), "\t", None, None, Some("5-6")).unwrap();
    assert!(matches!(config.extract, Extract::Fields(ref l) if *l == vec![4..6]));
}

#[test]
fn bad_selection_reports_parse_message() {
    let res = build_config(files(), "\t", None, None, Some("0"));
    assert_eq!(res.unwrap_err(), "illegal list value: \"0\"");
}
