use dup_check::cli::{parse_plain_size, parse_size, Args, SizeError};
use dup_check::interactive::InteractiveConfig;
use dup_check::scanner::{HiddenRule, ScanError, Scanner};

#[test]
fn sizes_without_a_unit_are_bytes() {
    assert_eq!(parse_size("0"), Ok(0));
    assert_eq!(parse_size("1"), Ok(1));
    assert_eq!(parse_size("4096"), Ok(4096));
    assert_eq!(parse_size("007"), Ok(7));
    assert_eq!(parse_size("+12"), Ok(12));
    assert_eq!(parse_size("18446744073709551615"), Ok(u64::MAX));
}

#[test]
fn units_are_powers_of_1024() {
    assert_eq!(parse_size("1K"), Ok(1024));
    assert_eq!(parse_size("1M"), Ok(1024 * 1024));
    assert_eq!(parse_size("1G"), Ok(1024 * 1024 * 1024));
    assert_eq!(parse_size("1T"), Ok(1024u64 * 1024 * 1024 * 1024));
    assert_eq!(parse_size("10M"), Ok(10_485_760));
    assert_eq!(parse_size("3G"), Ok(3_221_225_472));
    assert_eq!(parse_size("0K"), Ok(0));
    assert_eq!(parse_size("+5K"), Ok(5120));
}

#[test]
fn case_and_surrounding_white_space_do_not_matter() {
    assert_eq!(parse_size("1k"), Ok(1024));
    assert_eq!(parse_size("2m"), Ok(2 * 1024 * 1024));
    assert_eq!(parse_size("1g"), Ok(1024 * 1024 * 1024));
    assert_eq!(parse_size("1t"), Ok(1024u64 * 1024 * 1024 * 1024));
    assert_eq!(parse_size("  1K  "), Ok(1024));
    assert_eq!(parse_size("\t512\n"), Ok(512));
    assert_eq!(parse_size(" 7m"), Ok(7 * 1024 * 1024));
}

#[test]
fn empty_text_is_refused() {
    assert_eq!(parse_size(""), Err(SizeError::Empty));
    assert_eq!(parse_size("   "), Err(SizeError::Empty));
    assert_eq!(parse_size("\n"), Err(SizeError::Empty));
}

#[test]
fn unknown_suffixes_are_refused() {
    assert_eq!(parse_size("1B"), Err(SizeError::InvalidSuffix));
    assert_eq!(parse_size("1KB"), Err(SizeError::InvalidSuffix));
    assert_eq!(parse_size("1P"), Err(SizeError::InvalidSuffix));
    assert_eq!(parse_size("abc"), Err(SizeError::InvalidSuffix));
    assert_eq!(parse_size("12."), Err(SizeError::InvalidSuffix));
    assert_eq!(parse_size("1é"), Err(SizeError::InvalidSuffix));
    assert_eq!(parse_size("+"), Err(SizeError::InvalidSuffix));
}

#[test]
fn what_stands_before_the_unit_must_be_a_number() {
    assert_eq!(parse_size("K"), Err(SizeError::InvalidNumber));
    assert_eq!(parse_size("+K"), Err(SizeError::InvalidNumber));
    assert_eq!(parse_size("1.5G"), Err(SizeError::InvalidNumber));
    assert_eq!(parse_size("-1K"), Err(SizeError::InvalidNumber));
    assert_eq!(parse_size("1 K"), Err(SizeError::InvalidNumber));
    assert_eq!(parse_size("1KK"), Err(SizeError::InvalidNumber));
    assert_eq!(parse_size("x1"), Err(SizeError::InvalidNumber));
    assert_eq!(parse_size("1+1"), Err(SizeError::InvalidNumber));
    assert_eq!(parse_size("++1"), Err(SizeError::InvalidNumber));
    assert_eq!(parse_size("18446744073709551616"), Err(SizeError::InvalidNumber));
    assert_eq!(parse_size("99999999999999999999999K"), Err(SizeError::InvalidNumber));
}

#[test]
fn sizes_beyond_64_bits_are_refused() {
    assert_eq!(parse_size("18014398509481983K"), Ok(u64::MAX - 1023));
    assert_eq!(parse_size("18014398509481984K"), Err(SizeError::TooLarge));
    assert_eq!(parse_size("16777215T"), Ok(16_777_215u64 << 40));
    assert_eq!(parse_size("16777216T"), Err(SizeError::TooLarge));
    assert_eq!(parse_size("18446744073709551615M"), Err(SizeError::TooLarge));
}

#[test]
fn plain_sizes_are_read_as_written() {
    assert_eq!(parse_plain_size("1K"), Ok(1024));
    assert_eq!(parse_plain_size("42"), Ok(42));
    assert_eq!(parse_plain_size("1k"), Err(SizeError::InvalidSuffix));
    assert_eq!(parse_plain_size(" 1K"), Err(SizeError::InvalidNumber));
    assert_eq!(parse_plain_size("1K "), Err(SizeError::InvalidSuffix));
    assert_eq!(parse_plain_size(""), Err(SizeError::Empty));
}

#[test]
fn arguments_become_a_configuration() {
    let args = Args {
        path: "/data".to_string(),
        min_size: Some(1024),
        max_size: None,
        no_cache: false,
    };
    let config = args.into_config();
    assert_eq!(config.path, "/data");
    assert_eq!(config.min_size, Some(1024));
    assert_eq!(config.max_size, None);
    assert!(config.use_cache);

    let args = Args { path: ".".to_string(), min_size: None, max_size: Some(5), no_cache: true };
    let config = args.into_config();
    assert_eq!(config.path, ".");
    assert_eq!(config.min_size, None);
    assert_eq!(config.max_size, Some(5));
    assert!(!config.use_cache);
}

#[test]
fn a_scanner_is_made_for_a_configuration() {
    let config = InteractiveConfig {
        path: "/data".to_string(),
        min_size: Some(10),
        max_size: Some(20),
        use_cache: true,
    };
    let scanner = Scanner::from_config(&config).unwrap();
    assert_eq!(scanner.filter.min_size, Some(10));
    assert_eq!(scanner.filter.max_size, Some(20));
    assert_eq!(scanner.filter.hidden_rule, HiddenRule::DotPrefix);
    assert!(scanner.cache.is_some());

    let config = InteractiveConfig {
        path: "/data".to_string(),
        min_size: Some(21),
        max_size: Some(20),
        use_cache: false,
    };
    assert_eq!(Scanner::from_config(&config).err(), Some(ScanError::InvalidSizeBounds));
}
