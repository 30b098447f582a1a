use lru::flags::parse_flags;
use lru::flags::parse_unsigned;

fn words(list: &[&str]) -> Vec<String> {
    list.iter().map(|w| w.to_string()).collect()
}

#[test]
fn defaults_apply_without_flags() {
    let f = parse_flags(&words(&["prog"])).unwrap();
    assert_eq!(f.capacity, 100);
    assert_eq!(f.port, 6379);
}

#[test]
fn both_flags_are_read() {
    let f = parse_flags(&words(&["prog", "-c", "42", "-p", "8080"])).unwrap();
    assert_eq!(f.capacity, 42);
    assert_eq!(f.port, 8080);
}

#[test]
fn missing_values_are_fatal() {
    assert_eq!(
        parse_flags(&words(&["prog", "-c"])).unwrap_err(),
        "Missing value for -c"
    );
    assert_eq!(
        parse_flags(&words(&["prog", "-p"])).unwrap_err(),
        "Missing value for -p"
    );
}

#[test]
fn unreadable_values_are_fatal() {
    assert_eq!(
        parse_flags(&words(&["prog", "-c", "many"])).unwrap_err(),
        "Invalid concurrency value"
    );
    assert_eq!(
        parse_flags(&words(&["prog", "-p", "65536"])).unwrap_err(),
        "Invalid port value"
    );
}

#[test]
fn unknown_flags_are_fatal() {
    assert_eq!(
        parse_flags(&words(&["prog", "--help"])).unwrap_err(),
        "Unknown flag: --help"
    );
}

#[test]
fn unsigned_parsing_matches_the_standard_reader() {
    assert_eq!(parse_unsigned("0", u64::MAX), Some(0));
    assert_eq!(parse_unsigned("123", u64::MAX), Some(123));
    assert_eq!(parse_unsigned("+123", u64::MAX), Some(123));
    assert_eq!(parse_unsigned("007", u64::MAX), Some(7));
    assert_eq!(parse_unsigned("65535", 65535), Some(65535));
    assert_eq!(parse_unsigned("65536", 65535), None);
    assert_eq!(parse_unsigned("", u64::MAX), None);
    assert_eq!(parse_unsigned("+", u64::MAX), None);
    assert_eq!(parse_unsigned("-1", u64::MAX), None);
    assert_eq!(parse_unsigned("1 2", u64::MAX), None);
    assert_eq!(parse_unsigned("12a", u64::MAX), None);
    assert_eq!(
        parse_unsigned("18446744073709551615", u64::MAX),
        Some(u64::MAX)
    );
    assert_eq!(parse_unsigned("18446744073709551616", u64::MAX), None);
}
