use airport_rank::records::parse_u32;
use airport_rank::records::passenger_count;

#[test]
fn parse_u32_accepts_plain_decimals() {
    assert_eq!(parse_u32("0"), Some(0));
    assert_eq!(parse_u32("14771"), Some(14771));
    assert_eq!(parse_u32("+123"), Some(123));
    assert_eq!(parse_u32("007"), Some(7));
    assert_eq!(parse_u32("4294967295"), Some(u32::MAX));
}

#[test]
fn parse_u32_rejects_everything_else() {
    assert_eq!(parse_u32(""), None);
    assert_eq!(parse_u32("+"), None);
    assert_eq!(parse_u32("-1"), None);
    assert_eq!(parse_u32("12a"), None);
    assert_eq!(parse_u32(" 12"), None);
    assert_eq!(parse_u32("1.5"), None);
    assert_eq!(parse_u32("4294967296"), None);
}

#[test]
fn passenger_count_extracts_digits() {
    assert_eq!(passenger_count("1234"), 1234);
    assert_eq!(passenger_count("1,234"), 1234);
    assert_eq!(passenger_count("00123x4"), 1234);
    assert_eq!(passenger_count(" 9 8 7 "), 987);
}

#[test]
fn passenger_count_falls_back_to_zero() {
    assert_eq!(passenger_count(""), 0);
    assert_eq!(passenger_count("no digits here"), 0);
    assert_eq!(passenger_count("-"), 0);
    // a value too large for the counter reads as zero, not as an error
    assert_eq!(passenger_count("99999999999999999999999999999999"), 0);
}
