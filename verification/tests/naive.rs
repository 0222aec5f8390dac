use hft_latency_lab::parser::naive::{parse_ascii_u16, parse_ascii_u32, parse_ascii_u64, parse_timestamp};

#[test]
fn parse_ascii_basic() {
    assert_eq!(parse_ascii_u64(b"12345"), 12345);
    assert_eq!(parse_ascii_u16(b"42"), 42);
    assert_eq!(parse_ascii_u32(b"000100"), 100);
}

#[test]
fn parse_ascii_empty_and_timestamp() {
    assert_eq!(parse_ascii_u64(b""), 0);
    assert_eq!(parse_timestamp(b"00000000123"), 123);
    assert_eq!(parse_ascii_u64(b"18446744073709551615"), u64::MAX);
}
