use cutr::parse_idx;
use cutr::parse_pos;
use cutr::parse_range;
use cutr::ParseError;

#[test]
fn test_parse_pos() {
    // Zero is an error
    let res = parse_pos("0");
    assert!(res.is_err());
    assert_eq!(res.unwrap_err().message(), "illegal list value: \"0\"",);

    let res = parse_pos("0-1");
    assert!(res.is_err());
    assert_eq!(res.unwrap_err().message(), "illegal list value: \"0\"",);

    // Leading "+" is an error, quoting the malformed endpoint
    let res = parse_pos("+1");
    assert!(res.is_err());
    assert_eq!(res.unwrap_err().message(), "illegal list value: \"+1\"");

    let res = parse_pos("+1-2");
    assert!(res.is_err());
    assert_eq!(res.unwrap_err().message(), "illegal list value: \"+1\"");

    let res = parse_pos("1-+2");
    assert!(res.is_err());
    assert_eq!(res.unwrap_err().message(), "illegal list value: \"+2\"");

    // Any non-number is an error
    let res = parse_pos("a");
    assert!(res.is_err());
    assert_eq!(res.unwrap_err().message(), "illegal list value: \"a\"");

    let res = parse_pos("1,a");
    assert!(res.is_err());
    assert_eq!(res.unwrap_err().message(), "illegal list value: \"a\"");

    let res = parse_pos("1-a");
    assert!(res.is_err());
    assert_eq!(res.unwrap_err().message(), "illegal list value: \"1-a\"");

    let res = parse_pos("a-1");
    assert!(res.is_err());
    assert_eq!(res.unwrap_err().message(), "illegal list value: \"a-1\"");

    // Wonky ranges
    let res = parse_pos("-");
    assert!(res.is_err());

    let res = parse_pos(",");
    assert!(res.is_err());

    let res = parse_pos("1,");
    assert!(res.is_err());

    let res = parse_pos("1-");
    assert!(res.is_err());

    let res = parse_pos("1-1-1");
    assert!(res.is_err());

    let res = parse_pos("1-1-a");
    assert!(res.is_err());

    // First number must be less than second
    let res = parse_pos("1-1");
    assert!(res.is_err());
    assert_eq!(
        res.unwrap_err().message(),
        "First number in range (1) must be lower than second number (1)"
    );

    let res = parse_pos("2-1");
    assert!(res.is_err());
    assert_eq!(
        res.unwrap_err().message(),
        "First number in range (2) must be lower than second number (1)"
    );

    // All the following are acceptable
    let res = parse_pos("1");
    assert!(res.is_ok());
    assert_eq!(res.unwrap(), vec![0..1]);

    let res = parse_pos("01");
    assert!(res.is_ok());
    assert_eq!(res.unwrap(), vec![0..1]);

    let res = parse_pos("1,3");
    assert!(res.is_ok());
    assert_eq!(res.unwrap(), vec![0..1, 2..3]);

    let res = parse_pos("001,0003");
    assert!(res.is_ok());
    assert_eq!(res.unwrap(), vec![0..1, 2..3]);

    let res = parse_pos("1-3");
    assert!(res.is_ok());
    assert_eq!(res.unwrap(), vec![0..3]);

    let res = parse_pos("0001-03");
    assert!(res.is_ok());
    assert_eq!(res.unwrap(), vec![0..3]);

    let res = parse_pos("1,7,3-5");
    assert!(res.is_ok());
    assert_eq!(res.unwrap(), vec![0..1, 6..7, 2..5]);

    let res = parse_pos("15,19-20");
    assert!(res.is_ok());
    assert_eq!(res.unwrap(), vec![14..15, 18..20]);
}

#[test]
fn test_parse_range() {
    assert!(parse_range("").is_err());

    let res = parse_range("0");
    assert!(res.is_err());

    let res = parse_range("1-2");
    assert!(res.is_ok());
    assert_eq!(res.unwrap(), 0..2);
}

#[test]
fn test_parse_idx() {
    assert!(parse_idx("").is_err());

    let res = parse_idx("0");
    assert!(res.is_err());

    let res = parse_idx("1");
    assert!(res.is_ok());
    assert_eq!(res.unwrap(), 0);
}

#[test]
fn single_index_becomes_unit_range() {
    // every positive v parses to the single range [v-1, v)
    assert_eq!(parse_pos("7").unwrap(), vec![6..7]);
    assert_eq!(parse_pos("250").unwrap(), vec![249..250]);
    assert_eq!(parse_pos("1000000").unwrap(), vec![999999..1000000]);
}

#[test]
fn zero_is_illegal_in_both_forms() {
    assert_eq!(
        parse_pos("0").unwrap_err(),
        ParseError::IllegalValue("0".to_string())
    );
    assert_eq!(
        parse_pos("0-1").unwrap_err(),
        ParseError::IllegalValue("0".to_string())
    );
}

#[test]
fn leading_plus_quotes_the_endpoint() {
    assert_eq!(
        parse_pos("+1").unwrap_err(),
        ParseError::IllegalValue("+1".to_string())
    );
    assert_eq!(
        parse_pos("1-+2").unwrap_err(),
        ParseError::IllegalValue("+2".to_string())
    );
}

#[test]
fn reversed_bounds_name_both_numbers() {
    assert_eq!(
        parse_pos("1-1").unwrap_err(),
        ParseError::InvalidRangeOrder(1, 1)
    );
    assert_eq!(
        parse_pos("2-1").unwrap_err(),
        ParseError::InvalidRangeOrder(2, 1)
    );
}

#[test]
fn tokens_keep_their_written_order() {
    assert_eq!(parse_pos("1,3,5-8").unwrap(), vec![0..1, 2..3, 4..8]);
}

#[test]
fn reparsing_gives_an_equal_selection() {
    for list in ["1,3,5-8", "15,19-20", "2-4,2-4,1"] {
        assert_eq!(parse_pos(list).unwrap(), parse_pos(list).unwrap());
    }
    assert_eq!(parse_pos("2-1").unwrap_err(), parse_pos("2-1").unwrap_err());
}

#[test]
fn overflowing_value_is_illegal() {
    let big = "99999999999999999999999999";
    assert_eq!(
        parse_pos(big).unwrap_err(),
        ParseError::IllegalValue(big.to_string())
    );
}

#[test]
fn empty_token_is_illegal() {
    assert_eq!(
        parse_pos("").unwrap_err(),
        ParseError::IllegalValue("".to_string())
    );
    assert_eq!(
        parse_pos("1,,2").unwrap_err(),
        ParseError::IllegalValue("".to_string())
    );
}
