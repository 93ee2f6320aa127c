use cutr::positions::parse_pos;

#[test]
fn test_parse_pos() {
    // The empty string is an error
    let res = parse_pos("");
    assert!(res.is_err());

    // Zero is an error
    let res = parse_pos("0");
    assert!(res.is_err());
    assert_eq!(res.unwrap_err().to_string(), "illegal list value: \"0\"");

    let res = parse_pos("0-1");
    assert!(res.is_err());
    assert_eq!(res.unwrap_err().to_string(), "illegal list value: \"0\"");

    // A leading "+" is an error
    let res = parse_pos("+1");
    assert!(res.is_err());
    assert_eq!(res.unwrap_err().to_string(), "illegal list value: \"+1\"");

    let res = parse_pos("+1-2");
    assert!(res.is_err());
    assert_eq!(res.unwrap_err().to_string(), "illegal list value: \"+1-2\"");

    let res = parse_pos("1-+2");
    assert!(res.is_err());
    assert_eq!(res.unwrap_err().to_string(), "illegal list value: \"1-+2\"");

    // Any non-number is an error
    let res = parse_pos("a");
    assert!(res.is_err());
    assert_eq!(res.unwrap_err().to_string(), "illegal list value: \"a\"");

    let res = parse_pos("1,a");
    assert!(res.is_err());
    assert_eq!(res.unwrap_err().to_string(), "illegal list value: \"a\"");

    let res = parse_pos("1-a");
    assert!(res.is_err());
    assert_eq!(res.unwrap_err().to_string(), "illegal list value: \"1-a\"");

    let res = parse_pos("a-1");
    assert!(res.is_err());
    assert_eq!(res.unwrap_err().to_string(), "illegal list value: \"a-1\"");

    // Ill-shaped ranges
    let res = parse_pos("-");
    assert!(res.is_err());

    let res = parse_pos(",");
    assert!(res.is_err());

    let res = parse_pos("1,");
    assert!(res.is_err());

    let res = parse_pos("1-");
    assert!(res.is_err());

    let res = parse_pos("1-1-1");
    assert!(res.is_err());

    let res = parse_pos("1-1-a");
    assert!(res.is_err());

    // First number must be less than second
    let res = parse_pos("1-1");
    assert!(res.is_err());
    assert_eq!(
        res.unwrap_err().to_string(), 
        "First number in range (1) must be lower than second number (1)"
    );

    let res = parse_pos("2-1");
    assert!(res.is_err());
    assert_eq!(
        res.unwrap_err().to_string(), 
        "First number in range (2) must be lower than second number (1)"
    );

    // All the following are acceptable
    let res = parse_pos("1");
    assert!(res.is_ok());
    assert_eq!(res.unwrap(), vec![0..1]);

    let res = parse_pos("01");
    assert!(res.is_ok());
    assert_eq!(res.unwrap(), vec![0..1]);

    let res = parse_pos("1,3");
    assert!(res.is_ok());
    assert_eq!(res.unwrap(), vec![0..1, 2..3]);

    let res = parse_pos("001,0003");
    assert!(res.is_ok());
    assert_eq!(res.unwrap(), vec![0..1, 2..3]);

    let res = parse_pos("1-3");
    assert!(res.is_ok());
    assert_eq!(res.unwrap(), vec![0..3]);

    let res = parse_pos("0001-03");
    assert!(res.is_ok());
    assert_eq!(res.unwrap(), vec![0..3]);

    let res = parse_pos("1,7,3-5");
    assert!(res.is_ok());
    assert_eq!(res.unwrap(), vec![0..1, 6..7, 2..5]);

    let res = parse_pos("15,19-20");
    assert!(res.is_ok());
    assert_eq!(res.unwrap(), vec![14..15, 18..20]);
}

#[test]
fn empty_list_message() {
    let res = parse_pos("");
    assert_eq!(res.unwrap_err().to_string(), "position lists cannot be empty");
}

#[test]
fn ill_shaped_lists_fail() {
    for spec in ["", "-", ",", "1,", "1-", "1-1-1", ",1", "1,,2"] {
        assert!(parse_pos(spec).is_err(), "{}", spec);
    }
}

#[test]
fn empty_part_names_whole_list() {
    let res = parse_pos("1,,2");
    assert_eq!(res.unwrap_err().to_string(), "illegal list value: \"1,,2\"");
}

#[test]
fn too_many_dashes_names_part() {
    let res = parse_pos("3,1-2-3");
    assert_eq!(res.unwrap_err().to_string(), "illegal list value: \"1-2-3\"");
}

#[test]
fn zero_as_upper_bound() {
    let res = parse_pos("1-0");
    assert_eq!(res.unwrap_err().to_string(), "illegal list value: \"0\"");
    let res = parse_pos("00");
    assert_eq!(res.unwrap_err().to_string(), "illegal list value: \"0\"");
}

#[test]
fn inverted_range_with_larger_numbers() {
    let res = parse_pos("2,150-12");
    assert_eq!(
        res.unwrap_err().to_string(),
        "First number in range (150) must be lower than second number (12)"
    );
}

#[test]
fn first_faulty_part_decides() {
    let res = parse_pos("2-1,a");
    assert_eq!(
        res.unwrap_err().to_string(),
        "First number in range (2) must be lower than second number (1)"
    );
    let res = parse_pos("a,2-1");
    assert_eq!(res.unwrap_err().to_string(), "illegal list value: \"a\"");
}

#[test]
fn number_too_large_is_illegal() {
    let res = parse_pos("99999999999999999999999");
    assert_eq!(
        res.unwrap_err().to_string(),
        "illegal list value: \"99999999999999999999999\""
    );
}

#[test]
fn largest_position_is_accepted() {
    let spec = format!("{}", usize::MAX);
    assert_eq!(parse_pos(&spec).unwrap(), vec![usize::MAX - 1..usize::MAX]);
}

#[test]
fn duplicates_and_order_are_kept() {
    assert_eq!(parse_pos("3,1,3").unwrap(), vec![2..3, 0..1, 2..3]);
}

#[test]
fn parsed_ranges_are_well_formed() {
    let spec = "4,1-9,2,7-8";
    let list = parse_pos(spec).unwrap();
    assert_eq!(list.len(), spec.split(',').count());
    for r in &list {
        assert!(r.start < r.end);
    }
}

#[test]
fn round_trip_through_notation() {
    for spec in ["1,7,3-5", "0001-03,2", "15,19-20,15"] {
        let list = parse_pos(spec).unwrap();
        let text = list
            .iter()
            .map(|r| {
                if r.end == r.start + 1 {
                    format!("{}", r.end)
                } else {
                    format!("{}-{}", r.start + 1, r.end)
                }
            })
            .collect::<Vec<_>>()
            .join(",");
        assert_eq!(parse_pos(&text).unwrap(), list);
    }
}
