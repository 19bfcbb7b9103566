use shitmail_jmap_filter::number::{decimal_of, is_digits, signed_of, unsigned_of};

fn chars(s: &str) -> Vec<char> {
    s.chars().collect()
}

const TEXTS: [&str; 27] = [
    "0", "7", "15", "+15", "-15", "-0", "+0", "00012", "", "+", "-", "++1", "+-1", " 1", "1 ", "1_0", "0x1",
    "1.0", "\u{0661}", "65535", "65536", "4294967296", "9223372036854775807", "9223372036854775808",
    "-9223372036854775808", "-9223372036854775809", "18446744073709551616",
];

#[test]
fn unsigned_numbers_are_read_as_std_reads_them() {
    for s in TEXTS {
        assert_eq!(unsigned_of(&chars(s), u64::MAX), s.parse::<u64>().ok(), "{:?}", s);
        assert_eq!(unsigned_of(&chars(s), 65535), s.parse::<u16>().ok().map(u64::from), "{:?}", s);
    }
    assert_eq!(unsigned_of(&chars("18446744073709551615"), u64::MAX), Some(u64::MAX));
    assert_eq!(unsigned_of(&chars("000000000000000000000000000000000001"), 9), Some(1));
}

#[test]
fn signed_numbers_are_read_as_std_reads_them() {
    for s in TEXTS {
        assert_eq!(signed_of(&chars(s)), s.parse::<i64>().ok(), "{:?}", s);
    }
    assert_eq!(signed_of(&chars("-42")), Some(-42));
    assert_eq!(signed_of(&chars("-9223372036854775808")), Some(i64::MIN));
}

#[test]
fn numbers_are_written_as_std_writes_them() {
    for n in 0..=u16::MAX {
        assert_eq!(decimal_of(n), chars(&n.to_string()));
        assert_eq!(unsigned_of(&decimal_of(n), u64::MAX), Some(n as u64));
    }
}

#[test]
fn digits_are_told_from_other_text() {
    assert!(is_digits(&chars("007")));
    assert!(!is_digits(&chars("")));
    assert!(!is_digits(&chars("1a")));
    assert!(!is_digits(&chars("+1")));
}
