use grahh_db::{Key, KeyParseError};

#[test]
fn parse_reads_a_decimal_number() {
    let key = Key::parse("42").unwrap();
    assert_eq!(key.to_string(), "42");
    assert_eq!(Key::parse("0").unwrap().to_string(), "0");
}

#[test]
fn parse_inverts_to_string() {
    for text in ["0", "7", "10", "1700000000000000000", "18446744073709551615"] {
        let key = Key::parse(text).unwrap();
        assert_eq!(key.to_string(), text);
        assert_eq!(Key::parse(&key.to_string()), Ok(key));
    }
}

#[test]
fn parse_takes_one_leading_plus() {
    assert_eq!(Key::parse("+5"), Key::parse("5"));
    assert_eq!(Key::parse("+0"), Key::parse("0"));
    assert_eq!(Key::parse("++5"), Err(KeyParseError));
    assert_eq!(Key::parse("5+"), Err(KeyParseError));
}

#[test]
fn parse_takes_leading_zeros() {
    assert_eq!(Key::parse("007"), Key::parse("7"));
    assert_eq!(Key::parse("007").unwrap().to_string(), "7");
    assert_eq!(Key::parse("00000000000000000000000000042"), Key::parse("42"));
}

#[test]
fn parse_agrees_with_the_integer_parser_of_std() {
    let texts = [
        "", "+", "-", "0", "+0", "-0", "1", "-1", "+1", "007", "12a", "a12", " 5", "5 ", "5\n",
        "1_000", "0x10", "1e3", "1.0", "18446744073709551615", "18446744073709551616",
        "+18446744073709551615", "99999999999999999999999999", "Key(5)", "Key(+5)", "Key(007)",
        "\u{0663}", "\u{ff15}",
    ];
    for text in texts {
        let std: Result<u64, _> = text.parse::<u64>();
        let ours = Key::parse(text);
        assert_eq!(ours.is_ok(), std.is_ok(), "{}", format!("{text:?}"));
        if let (Ok(key), Ok(number)) = (ours, std) {
            assert_eq!(key.to_string(), number.to_string());
        }
    }
}

#[test]
fn parse_takes_the_largest_identifier() {
    let key = Key::parse("18446744073709551615").unwrap();
    assert_eq!(key.to_string(), "18446744073709551615");
}

#[test]
fn parse_refuses_a_number_that_is_too_large() {
    assert_eq!(Key::parse("18446744073709551616"), Err(KeyParseError));
    assert_eq!(Key::parse("99999999999999999999999999"), Err(KeyParseError));
}

#[test]
fn parse_refuses_empty_text() {
    assert_eq!(Key::parse(""), Err(KeyParseError));
    assert_eq!(Key::parse("+"), Err(KeyParseError));
}

#[test]
fn parse_refuses_what_is_no_integer() {
    let texts = [
        "abc", "12a", "a12", "-5", "-0", " 5", "5 ", "1 2", "1_000", "0x10", "1e3", "Key(5)",
        "Key(+5)", "Key(007)", "Key()", "key(5)", "(5)", "\u{0663}",
    ];
    for text in texts {
        assert_eq!(Key::parse(text), Err(KeyParseError), "{}", format!("{text:?}"));
    }
}

#[test]
fn two_texts_give_one_key_where_they_spell_one_number() {
    assert_eq!(Key::parse("5"), Key::parse("+5"));
    assert_eq!(Key::parse("5"), Key::parse("05"));
    assert_ne!(Key::parse("5"), Key::parse("50"));
    assert_ne!(Key::parse("5"), Key::parse("6"));
}

#[test]
fn to_string_writes_the_decimal_digits() {
    assert_eq!(Key::parse("0").unwrap().to_string(), "0");
    assert_eq!(Key::parse("9").unwrap().to_string(), "9");
    assert_eq!(Key::parse("10").unwrap().to_string(), "10");
    assert_eq!(Key::parse("1234567890").unwrap().to_string(), "1234567890");
}

#[test]
fn parse_error_says_invalid_key() {
    let error = Key::parse("nope").unwrap_err();
    assert_eq!(error.to_string(), "invalid key");
}

#[test]
fn from_timestamp_takes_the_nanoseconds_as_identifier() {
    assert_eq!(Key::from_timestamp(Some(0)), Some(Key::parse("0").unwrap()));
    assert_eq!(
        Key::from_timestamp(Some(1_700_000_000_123_456_789)),
        Some(Key::parse("1700000000123456789").unwrap())
    );
    assert_eq!(
        Key::from_timestamp(Some(i64::MAX)),
        Some(Key::parse("9223372036854775807").unwrap())
    );
}

#[test]
fn from_timestamp_has_no_key_without_a_reading() {
    assert_eq!(Key::from_timestamp(None), None);
}

#[test]
fn from_timestamp_has_no_key_before_the_epoch() {
    assert_eq!(Key::from_timestamp(Some(-1)), None);
    assert_eq!(Key::from_timestamp(Some(i64::MIN)), None);
}

#[test]
fn generate_reads_the_clock() {
    let first = Key::generate().unwrap();
    let text = first.to_string();
    let nanos: u64 = text.parse().unwrap();
    assert!(nanos > 1_600_000_000_000_000_000, "{}", text);
    assert!(nanos <= i64::MAX as u64, "{}", text);
    assert_eq!(Key::parse(&text), Ok(first));
}

#[test]
fn equal_identifiers_are_equal_keys() {
    assert_eq!(Key::parse("5").unwrap(), Key::parse("+5").unwrap());
    assert_ne!(Key::parse("5").unwrap(), Key::parse("6").unwrap());
}
