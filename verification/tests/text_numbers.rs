use rwr_profile::text::parse_i32;
use rwr_profile::text::parse_i8;
use rwr_profile::text::parse_integer;
use rwr_profile::text::parse_u16;
use rwr_profile::text::parse_u64;
use rwr_profile::text::push_int;
use rwr_profile::text::push_nat;
use rwr_profile::text::same_text;

#[test]
fn integers_are_read_with_an_optional_sign() {
    assert_eq!(parse_i8("-128"), Some(-128));
    assert_eq!(parse_i8("127"), Some(127));
    assert_eq!(parse_i8("+7"), Some(7));
    assert_eq!(parse_i8("007"), Some(7));
    assert_eq!(parse_i8("-0"), Some(0));
    assert_eq!(parse_i32("-2147483648"), Some(i32::MIN));
    assert_eq!(parse_i32("2147483647"), Some(i32::MAX));
    assert_eq!(parse_u16("65535"), Some(u16::MAX));
    assert_eq!(parse_u16("+300"), Some(300));
    assert_eq!(parse_u64("18446744073709551615"), Some(u64::MAX));
    assert_eq!(parse_integer("-5", -10, 10), Some(-5));
}

#[test]
fn integers_out_of_range_are_refused() {
    assert_eq!(parse_i8("128"), None);
    assert_eq!(parse_i8("-129"), None);
    assert_eq!(parse_i32("2147483648"), None);
    assert_eq!(parse_u16("65536"), None);
    assert_eq!(parse_u64("18446744073709551616"), None);
    assert_eq!(parse_u64("99999999999999999999999999999999999999999999"), None);
    assert_eq!(parse_integer("11", -10, 10), None);
}

#[test]
fn what_is_no_integer_is_refused() {
    for text in ["", "+", "-", " 1", "1 ", "1.0", "0x10", "1e3", "--1", "+-1", "٣", "1_000"] {
        assert_eq!(parse_i32(text), None);
    }
    assert_eq!(parse_u16("-1"), None);
    assert_eq!(parse_u64("-0"), None);
}

#[test]
fn integers_are_written_without_leading_zeros() {
    let mut out = String::from("x=");
    push_nat(&mut out, 0);
    push_nat(&mut out, 1050);
    push_int(&mut out, -7);
    push_int(&mut out, i64::MIN);
    push_nat(&mut out, u64::MAX);
    assert_eq!(out, "x=01050-7-922337203685477580818446744073709551615");
}

#[test]
fn written_integers_read_back() {
    for v in [i32::MIN, -1, 0, 1, 9, 10, 255, i32::MAX] {
        let mut out = String::new();
        push_int(&mut out, v as i64);
        assert_eq!(parse_i32(&out), Some(v));
    }
}

#[test]
fn texts_are_compared_character_by_character() {
    assert!(same_text("", ""));
    assert!(same_text("stash", "stash"));
    assert!(!same_text("stash", "stas"));
    assert!(!same_text("stash", "stasH"));
    assert!(same_text("Zoë", "Zoë"));
    assert!(!same_text("Zoe", "Zoë"));
}
