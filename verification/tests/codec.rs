use usage_timeline::codec::{decode, encode, parse_i64, ParseError};
use usage_timeline::time::Timestamp;

#[test]
fn encode_positive() {
    assert_eq!(encode(&Timestamp { secs: 1700000000 }), "1700000000");
    assert_eq!(encode(&Timestamp { secs: 0 }), "0");
    assert_eq!(encode(&Timestamp { secs: 7 }), "7");
}

#[test]
fn encode_negative() {
    assert_eq!(encode(&Timestamp { secs: -5 }), "-5");
    assert_eq!(encode(&Timestamp { secs: -8334601228800 }), "-8334601228800");
}

#[test]
fn decode_round_trip() {
    for secs in [0i64, 1, 59, 1700000000, 8210266876799, -1, -8334601228800] {
        let t = Timestamp { secs };
        assert_eq!(decode(&encode(&t)), Ok(t));
    }
}

#[test]
fn decode_leading_zeros() {
    assert_eq!(decode("007"), Ok(Timestamp { secs: 7 }));
}

#[test]
fn decode_not_a_number() {
    assert_eq!(decode(""), Err(ParseError::NotANumber));
    assert_eq!(decode("abc"), Err(ParseError::NotANumber));
    assert_eq!(decode("12x"), Err(ParseError::NotANumber));
    assert_eq!(decode("-"), Err(ParseError::NotANumber));
    assert_eq!(decode("+5"), Err(ParseError::NotANumber));
    // past 64 bits entirely
    assert_eq!(decode("99999999999999999999"), Err(ParseError::NotANumber));
}

#[test]
fn decode_out_of_range_boundaries() {
    assert_eq!(decode("8210266876799"), Ok(Timestamp { secs: 8210266876799 }));
    assert_eq!(decode("8210266876800"), Err(ParseError::OutOfRange));
    assert_eq!(decode("-8334601228800"), Ok(Timestamp { secs: -8334601228800 }));
    assert_eq!(decode("-8334601228801"), Err(ParseError::OutOfRange));
    assert_eq!(decode("9000000000000000000"), Err(ParseError::OutOfRange));
}

#[test]
fn parse_i64_extremes() {
    assert_eq!(parse_i64("9223372036854775807"), Some(i64::MAX));
    assert_eq!(parse_i64("-9223372036854775808"), Some(i64::MIN));
    assert_eq!(parse_i64("9223372036854775808"), None);
    assert_eq!(parse_i64("-9223372036854775809"), None);
}
