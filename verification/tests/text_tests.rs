use reminder::text::{parse_unsigned_upto, same_text};

#[test]
fn unsigned_parsing_follows_str_parse() {
    assert_eq!(parse_unsigned_upto("42", u64::MAX), Some(42));
    assert_eq!(parse_unsigned_upto("+7", u64::MAX), Some(7));
    assert_eq!(parse_unsigned_upto("007", u64::MAX), Some(7));
    assert_eq!(parse_unsigned_upto("", u64::MAX), None);
    assert_eq!(parse_unsigned_upto("+", u64::MAX), None);
    assert_eq!(parse_unsigned_upto("-1", u64::MAX), None);
    assert_eq!(parse_unsigned_upto(" 1", u64::MAX), None);
    assert_eq!(parse_unsigned_upto("1_000", u64::MAX), None);
    assert_eq!(parse_unsigned_upto("18446744073709551615", u64::MAX), Some(u64::MAX));
    assert_eq!(parse_unsigned_upto("18446744073709551616", u64::MAX), None);
    assert_eq!(parse_unsigned_upto("4294967295", u32::MAX as u64), Some(4294967295));
    assert_eq!(parse_unsigned_upto("4294967296", u32::MAX as u64), None);
    for s in ["0", "+0", "12", "99999", "x", "++1", "1+", "٣"] {
        assert_eq!(parse_unsigned_upto(s, u64::MAX), s.parse::<u64>().ok(), "{s}");
    }
}

#[test]
fn same_text_compares_characters() {
    assert!(same_text("info", "info"));
    assert!(!same_text("info", "Info"));
    assert!(!same_text("info", "inf"));
    assert!(same_text("", ""));
}
