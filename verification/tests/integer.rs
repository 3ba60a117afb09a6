use trellis::integer::{checked_add, parse, IntWidth, IntegerError};

#[test]
fn pg_names_round_trip() {
    for width in IntWidth::ALL {
        assert_eq!(IntWidth::from_pg_name(width.pg_name()), Some(width));
    }
    assert_eq!(IntWidth::from_pg_name("int4"), None);
    assert_eq!(IntWidth::from_pg_name("numeric"), None);
}

#[test]
fn ranges_match_postgres() {
    assert_eq!(IntWidth::Int2.range(), (-32768, 32767));
    assert_eq!(IntWidth::Int4.range(), (-2147483648, 2147483647));
    assert_eq!(IntWidth::Int8.range(), (i64::MIN, i64::MAX));
}

#[test]
fn addition_overflows_at_the_result_type_not_at_i64() {
    assert_eq!(
        checked_add(32767, IntWidth::Int2, 1, IntWidth::Int2),
        Err(IntegerError::OutOfRange {
            width: IntWidth::Int2
        })
    );
    assert_eq!(
        checked_add(32767, IntWidth::Int2, 1, IntWidth::Int4),
        Ok((32768, IntWidth::Int4))
    );
    assert_eq!(
        checked_add(2147483647, IntWidth::Int4, 1, IntWidth::Int4),
        Err(IntegerError::OutOfRange {
            width: IntWidth::Int4
        })
    );
    assert_eq!(
        checked_add(2147483647, IntWidth::Int4, 1, IntWidth::Int8),
        Ok((2147483648, IntWidth::Int8))
    );
    assert_eq!(
        checked_add(i64::MAX, IntWidth::Int8, 1, IntWidth::Int8),
        Err(IntegerError::OutOfRange {
            width: IntWidth::Int8
        })
    );
}

#[test]
fn out_of_range_message_is_postgres_wording() {
    assert_eq!(
        IntegerError::OutOfRange {
            width: IntWidth::Int4
        }
        .to_string(),
        "integer out of range"
    );
}

#[test]
fn parse_accepts_only_postgres_canonical_form() {
    assert_eq!(parse("0", IntWidth::Int4), Ok(0));
    assert_eq!(parse("-42", IntWidth::Int4), Ok(-42));
    assert_eq!(parse("2147483647", IntWidth::Int4), Ok(2147483647));
    for bad in ["", "-", "007", "+7", " 7", "7 ", "1.0", "1e3", "-0", "x"] {
        assert!(
            parse(bad, IntWidth::Int4).is_err(),
            "{bad:?} is not canonical Postgres integer output"
        );
    }
}

#[test]
fn parse_rejects_values_outside_the_columns_width() {
    assert_eq!(
        parse("32768", IntWidth::Int2),
        Err(IntegerError::OutOfRange {
            width: IntWidth::Int2
        })
    );
    assert_eq!(parse("32768", IntWidth::Int4), Ok(32768));
    assert!(matches!(
        parse("99999999999999999999", IntWidth::Int8),
        Err(IntegerError::OutOfRange { .. })
    ));
}

#[test]
fn wider_picks_the_wider_operand() {
    assert_eq!(IntWidth::Int2.wider(IntWidth::Int8), IntWidth::Int8);
    assert_eq!(IntWidth::Int8.wider(IntWidth::Int2), IntWidth::Int8);
    assert_eq!(IntWidth::Int4.wider(IntWidth::Int4), IntWidth::Int4);
}

#[test]
fn literal_typing_matches_postgres() {
    assert_eq!(IntWidth::narrowest_for(1), IntWidth::Int4);
    assert_eq!(IntWidth::narrowest_for(-32769), IntWidth::Int4);
    assert_eq!(IntWidth::narrowest_for(3_000_000_000), IntWidth::Int8);
}

#[test]
fn parse_reaches_both_ends_of_bigint() {
    assert_eq!(parse("9223372036854775807", IntWidth::Int8), Ok(i64::MAX));
    assert_eq!(parse("-9223372036854775808", IntWidth::Int8), Ok(i64::MIN));
    assert_eq!(
        parse("9223372036854775808", IntWidth::Int8),
        Err(IntegerError::OutOfRange { width: IntWidth::Int8 })
    );
    assert_eq!(
        parse("-9223372036854775809", IntWidth::Int8),
        Err(IntegerError::OutOfRange { width: IntWidth::Int8 })
    );
    assert_eq!(
        parse(&"1".repeat(60), IntWidth::Int2),
        Err(IntegerError::OutOfRange { width: IntWidth::Int2 })
    );
}

#[test]
fn invalid_text_is_named_in_the_error() {
    let err = parse("007", IntWidth::Int4).unwrap_err();
    assert_eq!(err, IntegerError::Invalid { text: "007".to_string() });
    assert_eq!(err.to_string(), "invalid input syntax for type integer: '007'");
}

#[test]
fn widths_are_spelled_as_postgres_does() {
    assert_eq!(IntWidth::Int2.to_string(), "smallint");
    assert_eq!(IntWidth::Int4.to_string(), "integer");
    assert_eq!(IntWidth::Int8.to_string(), "bigint");
    assert!(IntWidth::Int2 < IntWidth::Int4);
    assert!(IntWidth::Int2.fits(-32768) && !IntWidth::Int2.fits(-32769));
}
