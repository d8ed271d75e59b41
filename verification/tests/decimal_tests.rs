use bitbank_core::decimal::{parse_dec, parse_seq_id, Dec};

fn dec(s: &str) -> Dec {
    parse_dec(s).expect("should parse")
}

#[test]
fn parse_plain_integer() {
    let d = dec("10");
    assert_eq!(d.units, 10);
    assert!(d.frac.is_empty());
}

#[test]
fn parse_fraction() {
    let d = dec("10.25");
    assert_eq!(d.units, 10);
    assert_eq!(d.frac, vec![2, 5]);
}

#[test]
fn parse_canonicalizes_trailing_zeros() {
    let d = dec("10.2500");
    assert_eq!(d.units, 10);
    assert_eq!(d.frac, vec![2, 5]);
    assert!(dec("10.25").eq_dec(&d));
    assert!(dec("10.5").eq_dec(&dec("10.50")));
}

#[test]
fn parse_rejects_malformed() {
    assert!(parse_dec("").is_none());
    assert!(parse_dec(".").is_none());
    assert!(parse_dec("1.").is_none());
    assert!(parse_dec(".5").is_none());
    assert!(parse_dec("1.2.3").is_none());
    assert!(parse_dec("12a").is_none());
    assert!(parse_dec("-1").is_none());
    assert!(parse_dec("1 0").is_none());
}

#[test]
fn parse_rejects_oversized_integer_part() {
    // one more than the largest machine word
    assert!(parse_dec("18446744073709551616").is_none());
    assert!(parse_dec("18446744073709551615").is_some());
    assert!(parse_dec("99999999999999999999999999").is_none());
}

#[test]
fn zero_in_every_spelling() {
    assert!(dec("0").is_zero());
    assert!(dec("0.000").is_zero());
    assert!(dec("00").is_zero());
    assert!(!dec("0.001").is_zero());
    assert!(!dec("1").is_zero());
}

#[test]
fn numeric_order_not_lexicographic() {
    // lexicographically "9.9" > "10", numerically it is smaller
    assert!(dec("9.9").lt(&dec("10")));
    assert!(!dec("10").lt(&dec("9.9")));
    assert!(dec("0.5").lt(&dec("0.51")));
    assert!(dec("0.5").lt(&dec("0.6")));
    assert!(!dec("0.5").lt(&dec("0.5")));
    assert!(dec("2").lt(&dec("10")));
}

#[test]
fn equality_across_spellings() {
    assert!(dec("007").eq_dec(&dec("7")));
    assert!(dec("7.10").eq_dec(&dec("7.1")));
    assert!(!dec("7.1").eq_dec(&dec("7.01")));
}

#[test]
fn sequence_ids_parse_numerically() {
    assert_eq!(parse_seq_id("100"), Some(100));
    assert_eq!(parse_seq_id("0"), Some(0));
    assert_eq!(parse_seq_id("007"), Some(7));
    assert_eq!(parse_seq_id("18446744073709551615"), Some(u64::MAX));
    assert_eq!(parse_seq_id("18446744073709551616"), None);
    assert_eq!(parse_seq_id(""), None);
    assert_eq!(parse_seq_id("10.5"), None);
    assert_eq!(parse_seq_id("1x"), None);
}
