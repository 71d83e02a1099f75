use staked_tokens_tracker::amount::{i64_to_decimal, u64_to_decimal, Amount};
use staked_tokens_tracker::filter::parse_indexer_filter;
use staked_tokens_tracker::text::{bytes_equal, hex_decode, hex_encode, to_lowercase};

fn amount(text: &str) -> Amount {
    Amount::parse(text).unwrap()
}

#[test]
fn parses_plain_and_signed_decimals() {
    assert_eq!(amount("123").to_decimal_string(), "123");
    assert_eq!(amount("-45").to_decimal_string(), "-45");
    assert_eq!(amount("+7").to_decimal_string(), "7");
    assert_eq!(amount("-0").to_decimal_string(), "0");
    assert_eq!(amount("1_000").to_decimal_string(), "1000");
    assert_eq!(amount("007").to_decimal_string(), "7");
}

#[test]
fn rejects_malformed_decimals() {
    for text in ["", "-", "+", "_1", "-_1", "-+1", "++1", "+-1", "12a", "1.5", " 1", "0x10"] {
        assert!(Amount::parse(text).is_none(), "{text:?} should not parse");
    }
}

#[test]
fn parse_or_zero_defaults_to_zero() {
    assert_eq!(Amount::parse_or_zero("oops").to_decimal_string(), "0");
    assert_eq!(Amount::parse_or_zero("42").to_decimal_string(), "42");
}

#[test]
fn parses_values_beyond_machine_words() {
    let big = "115792089237316195423570985008687907853269984665640564039457584007913129639935";
    assert_eq!(amount(big).to_decimal_string(), big);
    let twice = amount(big).add(&amount(big));
    assert_eq!(
        twice.to_decimal_string(),
        "231584178474632390847141970017375815706539969331281128078915168015826259279870"
    );
}

#[test]
fn adds_signed_amounts() {
    assert_eq!(amount("5").add(&amount("-7")).to_decimal_string(), "-2");
    assert_eq!(amount("-5").add(&amount("5")).to_decimal_string(), "0");
    assert_eq!(Amount::zero().add(&amount("300")).to_decimal_string(), "300");
}

#[test]
fn amount_bytes_are_twos_complement_little_endian() {
    let a = Amount { twos_complement_le: vec![0xff] };
    assert_eq!(a.to_decimal_string(), "-1");
    let b = Amount { twos_complement_le: vec![0x00, 0x01] };
    assert_eq!(b.to_decimal_string(), "256");
    let c = Amount { twos_complement_le: vec![] };
    assert_eq!(c.to_decimal_string(), "0");
}

#[test]
fn formats_machine_integers() {
    assert_eq!(u64_to_decimal(0), "0");
    assert_eq!(u64_to_decimal(1234567890), "1234567890");
    assert_eq!(u64_to_decimal(u64::MAX), "18446744073709551615");
    assert_eq!(i64_to_decimal(-42), "-42");
    assert_eq!(i64_to_decimal(i64::MIN), "-9223372036854775808");
    assert_eq!(i64_to_decimal(i64::MAX), "9223372036854775807");
}

#[test]
fn decimal_text_round_trips() {
    for v in ["0", "9", "10", "-1", "-123456789012345678901234567890"] {
        let a = amount(v);
        assert_eq!(amount(&a.to_decimal_string()).to_decimal_string(), v);
    }
}

#[test]
fn hex_encodes_lower_case() {
    assert_eq!(hex_encode(&[0xab, 0x01, 0xF0]), "ab01f0");
    assert_eq!(hex_encode(&[]), "");
}

#[test]
fn hex_decodes_with_or_without_prefix() {
    assert_eq!(hex_decode("0xAB01"), Some(vec![0xab, 0x01]));
    assert_eq!(hex_decode("ab01"), Some(vec![0xab, 0x01]));
    assert_eq!(hex_decode("0x"), Some(vec![]));
    assert_eq!(hex_decode("abc"), None);
    assert_eq!(hex_decode("zz"), None);
    assert_eq!(hex_decode("0X01"), None);
}

#[test]
fn lowercases_text() {
    assert_eq!(to_lowercase("AbC0x"), "abc0x");
    assert_eq!(to_lowercase("abc"), "abc");
}

#[test]
fn compares_bytes() {
    assert!(bytes_equal(&[1, 2, 3], &[1, 2, 3]));
    assert!(!bytes_equal(&[1, 2, 3], &[1, 2]));
    assert!(!bytes_equal(&[1, 2, 3], &[1, 2, 4]));
}

#[test]
fn wildcard_filter_keeps_everyone() {
    let f = parse_indexer_filter("*").unwrap();
    assert!(f.admits_indexer(&"anything".to_string()));
    assert!(f.admits_indexer(&String::new()));
}

#[test]
fn json_filter_keeps_listed_indexers() {
    let f = parse_indexer_filter("[\"35917c0eb91d2e21bef40940d028940484230c06\", \"aa\"]").unwrap();
    assert!(f.admits_indexer(&"35917c0eb91d2e21bef40940d028940484230c06".to_string()));
    assert!(f.admits_indexer(&"aa".to_string()));
    assert!(!f.admits_indexer(&"bb".to_string()));
    assert!(!f.admits_indexer(&"*".to_string()));
}

#[test]
fn empty_json_list_keeps_nobody() {
    let f = parse_indexer_filter("[]").unwrap();
    assert!(!f.admits_indexer(&"aa".to_string()));
}

#[test]
fn malformed_filter_is_refused() {
    assert!(parse_indexer_filter("aa").is_none());
    assert!(parse_indexer_filter("**").is_none());
    assert!(parse_indexer_filter("[1, 2]").is_none());
    assert!(parse_indexer_filter("").is_none());
}

#[test]
fn hex_decode_of_one_character_fails() {
    assert_eq!(hex_decode("a"), None);
    assert_eq!(hex_decode("x"), None);
    assert_eq!(hex_decode("é"), None);
}
