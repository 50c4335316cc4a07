use rt::decimal::push_decimal;

fn spell(n: u64) -> String {
    let mut out = Vec::new();
    push_decimal(&mut out, n);
    String::from_utf8(out).unwrap()
}

#[test]
fn decimal_spells_numbers_like_display() {
    for n in [0u64, 7, 9, 10, 99, 100, 255, 800, 600, 1234567890, u64::MAX] {
        assert_eq!(spell(n), n.to_string());
    }
}

#[test]
fn decimal_appends() {
    let mut out = b"x=".to_vec();
    push_decimal(&mut out, 42);
    assert_eq!(out, b"x=42".to_vec());
}

use rt::decimal::{parse_decimal, parse_u32, parse_usize};

#[test]
fn parse_reads_plain_and_signed_digits() {
    assert_eq!(parse_u32(b"4"), Some(4));
    assert_eq!(parse_u32(b"+4"), Some(4));
    assert_eq!(parse_usize(b"007"), Some(7));
    assert_eq!(parse_usize(b"800"), Some(800));
    assert_eq!(parse_u32(b"4294967295"), Some(u32::MAX));
    assert_eq!(parse_usize(usize::MAX.to_string().as_bytes()), Some(usize::MAX));
}

#[test]
fn parse_rejects_what_the_standard_parser_rejects() {
    for text in ["", "+", "-1", "-0", " 5", "5 ", "1.5", "0x10", "++1", "4294967296"] {
        assert_eq!(parse_u32(text.as_bytes()), None, "{text:?}");
        assert_eq!(text.parse::<u32>().ok(), None, "{text:?}");
    }
}

#[test]
fn parse_agrees_with_the_standard_parser() {
    for text in ["0", "12", "+12", "000", "65535", "99999999999", "18446744073709551615", "18446744073709551616"] {
        assert_eq!(parse_decimal(text.as_bytes(), u64::MAX), text.parse::<u64>().ok(), "{text:?}");
    }
}

#[test]
fn parse_reads_back_the_spelling() {
    for n in [0u64, 1, 9, 10, 255, 600, 1 << 40, u64::MAX] {
        let mut out = Vec::new();
        push_decimal(&mut out, n);
        assert_eq!(parse_decimal(&out, u64::MAX), Some(n));
        assert_eq!(parse_decimal(&out, n), Some(n));
        if n > 0 {
            assert_eq!(parse_decimal(&out, n - 1), None);
        }
    }
}
