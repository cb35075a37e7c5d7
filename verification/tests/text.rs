use aoc25::decimal::pow10;
use aoc25::text::{lines, parse_unsigned, split, words};

fn strs(parts: Vec<&[u8]>) -> Vec<String> {
    parts.into_iter().map(|p| String::from_utf8(p.to_vec()).unwrap()).collect()
}

#[test]
fn text_split_keeps_empty_pieces() {
    assert_eq!(strs(split(b"a,b,,c", b',')), vec!["a", "b", "", "c"]);
    assert_eq!(strs(split(b"", b',')), vec![""]);
    assert_eq!(strs(split(b",", b',')), vec!["", ""]);
    assert_eq!(strs(split(b"abc", b',')), vec!["abc"]);
    assert_eq!(strs(split(b"1-2-3", b'-')), vec!["1", "2", "3"]);
    for text in ["", "a", ",a,,b,", "no commas", ",,,"] {
        let expected: Vec<&str> = text.split(',').collect();
        assert_eq!(strs(split(text.as_bytes(), b',')), expected);
    }
}

#[test]
fn text_lines_end_at_newlines() {
    assert_eq!(strs(lines(b"a\nb")), vec!["a", "b"]);
    assert_eq!(strs(lines(b"a\nb\n")), vec!["a", "b"]);
    assert_eq!(strs(lines(b"a\r\nb\r\n")), vec!["a", "b"]);
    assert_eq!(strs(lines(b"a\n\nb")), vec!["a", "", "b"]);
    assert_eq!(strs(lines(b"")), Vec::<String>::new());
    assert_eq!(strs(lines(b"\n")), vec![""]);
    assert_eq!(strs(lines(b"a\r")), vec!["a\r"]);
    assert_eq!(strs(lines(b"a\rb\n")), vec!["a\rb"]);
    assert_eq!(strs(lines(b"\r\n\r\n")), vec!["", ""]);
    for text in ["", "\n", "x", "x\n", "x\r\n\r\ny", "\r", "a\r\r\n", "one\ntwo\r\nthree"] {
        let expected: Vec<&str> = text.lines().collect();
        assert_eq!(strs(lines(text.as_bytes())), expected, "{:?}", text);
    }
}

#[test]
fn text_words_stand_between_blanks() {
    assert_eq!(strs(words(b"  12  7 x ")), vec!["12", "7", "x"]);
    assert_eq!(strs(words(b"")), Vec::<String>::new());
    assert_eq!(strs(words(b"   ")), Vec::<String>::new());
    assert_eq!(strs(words(b"a\tb c")), vec!["a\tb", "c"]);
}

#[test]
fn text_numbers_are_digits_after_at_most_one_plus() {
    assert_eq!(parse_unsigned(b"0", u64::MAX), Some(0));
    assert_eq!(parse_unsigned(b"007", u64::MAX), Some(7));
    assert_eq!(parse_unsigned(b"+42", u64::MAX), Some(42));
    assert_eq!(parse_unsigned(b"18446744073709551615", u64::MAX), Some(u64::MAX));
    assert_eq!(parse_unsigned(b"18446744073709551616", u64::MAX), None);
    assert_eq!(parse_unsigned(b"99999999999999999999999", u64::MAX), None);
    assert_eq!(parse_unsigned(b"000000000000000000000000000001", u64::MAX), Some(1));
    assert_eq!(parse_unsigned(b"", u64::MAX), None);
    assert_eq!(parse_unsigned(b"+", u64::MAX), None);
    assert_eq!(parse_unsigned(b"++1", u64::MAX), None);
    assert_eq!(parse_unsigned(b"-1", u64::MAX), None);
    assert_eq!(parse_unsigned(b"1 ", u64::MAX), None);
    assert_eq!(parse_unsigned(b" 1", u64::MAX), None);
    assert_eq!(parse_unsigned(b"1_000", u64::MAX), None);
    assert_eq!(parse_unsigned(b"12a", u64::MAX), None);
    assert_eq!(parse_unsigned(b"256", 255), None);
    assert_eq!(parse_unsigned(b"255", 255), Some(255));
    assert_eq!(parse_unsigned(b"4294967295", 0xffff_ffff), Some(4294967295));
    assert_eq!(parse_unsigned(b"4294967296", 0xffff_ffff), None);
    for text in ["", "+", "+0", "00", "12", "+12", "1+2", "18446744073709551615", "x"] {
        assert_eq!(parse_unsigned(text.as_bytes(), u64::MAX), text.parse::<u64>().ok(), "{:?}", text);
    }
}

#[test]
fn powers_of_ten() {
    assert_eq!(pow10(0), 1);
    assert_eq!(pow10(1), 10);
    assert_eq!(pow10(10), 10_000_000_000);
    assert_eq!(pow10(19), 10_000_000_000_000_000_000);
}
