use lila_engine::token::{parse_i32, parse_i64, parse_u32, parse_u64, read, read_until};

#[test]
fn test_read() {
    assert_eq!(read(""), (None, ""));
    assert_eq!(read(" abc\t def g"), (Some("abc"), "\t def g"));
    assert_eq!(read("  end"), (Some("end"), ""));
}

#[test]
fn test_read_until() {
    assert_eq!(
        read_until("abc def value foo", |t| t == "value"),
        (Some("abc def"), " value foo")
    );
    assert_eq!(
        read_until("abc def valuefoo", |t| t == "value"),
        (Some("abc def valuefoo"), "")
    );
    assert_eq!(
        read_until("value abc", |t| t == "value"),
        (Some("value abc"), "")
    );
}

#[test]
fn read_until_trims_both_ends() {
    assert_eq!(read_until("  a b \t ", |_| false), (Some("a b"), ""));
    assert_eq!(read_until(" \t ", |_| false), (None, ""));
}

#[test]
fn integers_read_like_str_parse() {
    assert_eq!(parse_u32("4294967295"), Some(4294967295));
    assert_eq!(parse_u32("4294967296"), None);
    assert_eq!(parse_u32("+12"), Some(12));
    assert_eq!(parse_u32("-1"), None);
    assert_eq!(parse_u32(""), None);
    assert_eq!(parse_u32("+"), None);
    assert_eq!(parse_u32("1a"), None);
    assert_eq!(parse_u64("18446744073709551615"), Some(u64::MAX));
    assert_eq!(parse_u64("18446744073709551616"), None);
    assert_eq!(parse_i64("-9223372036854775808"), Some(i64::MIN));
    assert_eq!(parse_i64("9223372036854775807"), Some(i64::MAX));
    assert_eq!(parse_i64("9223372036854775808"), None);
    assert_eq!(parse_i64("-0"), Some(0));
    assert_eq!(parse_i32("-2147483648"), Some(i32::MIN));
    assert_eq!(parse_i32("2147483648"), None);
    assert_eq!(parse_i32("-"), None);
    for n in [0u64, 7, 10, 99, 100, 123456789, u64::MAX] {
        assert_eq!(parse_u64(&n.to_string()), Some(n));
    }
}

#[test]
fn read_until_splits_at_first_match() {
    assert_eq!(
        read_until("a value b value c", |t| t == "value"),
        (Some("a"), " value b value c")
    );
    assert_eq!(read_until("  x  y", |t| t == "y"), (Some("x"), "  y"));
}
