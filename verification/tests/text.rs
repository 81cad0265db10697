use cf_qemu_post::text::{
    address, decimal, decimal_padded3, parse_decimal, parse_hex_address, same_text, split_words,
    starts_with, to_chars,
};

fn words_of(line: &str) -> Vec<String> {
    split_words(line).iter().map(|w| w.iter().collect()).collect()
}

#[test]
fn hex_addresses_are_read() {
    assert_eq!(parse_hex_address("0x1000"), Some(0x1000));
    assert_eq!(parse_hex_address("1000"), Some(0x1000));
    assert_eq!(parse_hex_address("0xdeadBEEF"), Some(0xdead_beef));
    assert_eq!(parse_hex_address("0x0x10"), Some(0x10));
    assert_eq!(parse_hex_address("0xffffffffffffffff"), Some(u64::MAX));
    assert_eq!(parse_hex_address("0x00000000000000000001"), Some(1));
    assert_eq!(parse_hex_address("+1f"), Some(0x1f));
}

#[test]
fn other_texts_are_no_addresses() {
    assert_eq!(parse_hex_address(""), None);
    assert_eq!(parse_hex_address("0x"), None);
    assert_eq!(parse_hex_address("+"), None);
    assert_eq!(parse_hex_address("-1"), None);
    assert_eq!(parse_hex_address("0X10"), None);
    assert_eq!(parse_hex_address("0x1g"), None);
    assert_eq!(parse_hex_address("0x10000000000000000"), None);
    assert_eq!(parse_hex_address(" 10"), None);
}

#[test]
fn hex_addresses_agree_with_the_standard_library() {
    for s in ["0x12", "0xZ", "0x0x0xA", "x1", "00x1", "0x+7", "ffffffffffffffff0", "٣"] {
        let expected = u64::from_str_radix(s.trim_start_matches("0x"), 16).ok();
        assert_eq!(parse_hex_address(s), expected, "{}", s);
    }
}

#[test]
fn decimals_have_a_limit() {
    assert_eq!(parse_decimal("255", 255), Some(255));
    assert_eq!(parse_decimal("256", 255), None);
    assert_eq!(parse_decimal("0000255", 255), Some(255));
    assert_eq!(parse_decimal("18446744073709551615", u64::MAX), Some(u64::MAX));
    assert_eq!(parse_decimal("18446744073709551616", u64::MAX), None);
    assert_eq!(parse_decimal("a", u64::MAX), None);
    assert_eq!(parse_decimal("", u64::MAX), None);
    assert_eq!(parse_decimal("٣", u64::MAX), None);
}

#[test]
fn numbers_are_written_as_they_are_read() {
    for n in [0, 9, 10, 99, 100, 12345, u64::MAX] {
        assert_eq!(decimal(n), n.to_string());
        assert_eq!(parse_decimal(&decimal(n), u64::MAX), Some(n));
        assert_eq!(address(n), format!("0x{:016x}", n));
        assert_eq!(parse_hex_address(&address(n)), Some(n));
        assert_eq!(decimal_padded3(n), format!("{:03}", n));
    }
}

#[test]
fn words_are_split_at_white_space() {
    assert_eq!(words_of("  0 \t0x1\u{3000}0x2\n"), vec!["0", "0x1", "0x2"]);
    assert_eq!(words_of(""), Vec::<String>::new());
    assert_eq!(words_of(" \r\n"), Vec::<String>::new());
    for c in '\u{0}'..='\u{ffff}' {
        let line = format!("a{}b", c);
        let expected: Vec<String> = line.split_whitespace().map(String::from).collect();
        assert_eq!(words_of(&line), expected, "{:?}", c);
    }
}

#[test]
fn texts_are_compared() {
    assert!(starts_with("log.txt.1", "log.txt"));
    assert!(starts_with("log.txt", "log.txt"));
    assert!(!starts_with("log.tx", "log.txt"));
    assert!(!starts_with("blog.txt", "log.txt"));
    assert!(same_text("read", "read"));
    assert!(!same_text("read", "reads"));
    assert!(!same_text("read", "Read"));
    assert_eq!(to_chars("dé"), vec!['d', 'é']);
}
