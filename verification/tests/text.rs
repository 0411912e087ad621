use evlite::text::{next_word, parse_i32, same_text, space, starts_with};

#[test]
fn parse_i32_reads_signed_decimal_notation() {
    assert_eq!(parse_i32("0"), Some(0));
    assert_eq!(parse_i32("1"), Some(1));
    assert_eq!(parse_i32("+17"), Some(17));
    assert_eq!(parse_i32("-17"), Some(-17));
    assert_eq!(parse_i32("-0"), Some(0));
    assert_eq!(parse_i32("000123"), Some(123));
    assert_eq!(parse_i32("2147483647"), Some(i32::MAX));
    assert_eq!(parse_i32("-2147483648"), Some(i32::MIN));
    assert_eq!(parse_i32("00000000000000000002147483647"), Some(i32::MAX));
}

#[test]
fn parse_i32_refuses_what_is_no_i32() {
    assert_eq!(parse_i32(""), None);
    assert_eq!(parse_i32("+"), None);
    assert_eq!(parse_i32("-"), None);
    assert_eq!(parse_i32("2147483648"), None);
    assert_eq!(parse_i32("-2147483649"), None);
    assert_eq!(parse_i32("99999999999999999999999999"), None);
    assert_eq!(parse_i32("12a"), None);
    assert_eq!(parse_i32("a12"), None);
    assert_eq!(parse_i32("1 "), None);
    assert_eq!(parse_i32("--1"), None);
    assert_eq!(parse_i32("1-"), None);
    assert_eq!(parse_i32("\u{0661}"), None);
}

#[test]
fn parse_i32_agrees_with_std() {
    for text in ["7", "-7", "+7", "007", "2147483647", "2147483648", "-2147483648", "x", "", "+", "4294967296"] {
        assert_eq!(parse_i32(text), text.parse::<i32>().ok());
    }
}

#[test]
fn space_agrees_with_std() {
    for n in 0u32..0x3100 {
        if let Some(c) = char::from_u32(n) {
            assert_eq!(space(c), c.is_whitespace());
        }
    }
    assert!(space(' '));
    assert!(space('\t'));
    assert!(space('\n'));
    assert!(!space('a'));
    assert!(!space('\u{200B}'));
}

#[test]
fn next_word_finds_the_longest_run_without_space() {
    assert_eq!(next_word("  ab  cde ", 0), Some((2, 4)));
    assert_eq!(next_word("  ab  cde ", 3), Some((3, 4)));
    assert_eq!(next_word("  ab  cde ", 4), Some((6, 9)));
    assert_eq!(next_word("  ab  cde ", 9), None);
    assert_eq!(next_word("", 0), None);
    assert_eq!(next_word("x", 0), Some((0, 1)));
    assert_eq!(next_word("\u{e9}t\u{e9} \u{3000}z", 3), Some((5, 6)));
}

#[test]
fn next_word_agrees_with_std() {
    let line = " insert\t12  evie\u{a0}jindo \n";
    let chars: Vec<char> = line.chars().collect();
    let mut from = 0;
    let mut words: Vec<String> = Vec::new();
    while let Some((a, b)) = next_word(line, from) {
        words.push(chars[a..b].iter().collect());
        from = b;
    }
    let expected: Vec<String> = line.split_whitespace().map(|w| w.to_string()).collect();
    assert_eq!(words, expected);
}

#[test]
fn starts_with_compares_the_first_characters() {
    assert!(starts_with("select *", "select"));
    assert!(starts_with("select", "select"));
    assert!(starts_with("anything", ""));
    assert!(!starts_with("selec", "select"));
    assert!(!starts_with("Select", "select"));
    assert!(!starts_with("", "x"));
}

#[test]
fn same_text_compares_all_characters() {
    assert!(same_text("", ""));
    assert!(same_text(".quit", ".quit"));
    assert!(!same_text(".quit", ".quit "));
    assert!(!same_text(".quit ", ".quit"));
    assert!(!same_text(".quit", ".quiz"));
}
