use cworm::text::{
    first_field, has_prefix, is_white_space, parse_number, split_fields, split_lines,
};

fn chars(s: &str) -> Vec<char> {
    s.chars().collect()
}

fn strings(v: Vec<Vec<char>>) -> Vec<String> {
    v.into_iter().map(|x| x.into_iter().collect()).collect()
}

fn number(s: &str) -> Option<u64> {
    parse_number(&chars(s), 0)
}

#[test]
fn white_space_is_unicode_white_space() {
    for n in 0..=0x10FFFF {
        if let Some(c) = char::from_u32(n) {
            assert_eq!(is_white_space(c), c.is_whitespace());
        }
    }
}

#[test]
fn lines_are_split_at_newlines() {
    assert_eq!(strings(split_lines("a b\n\nc\r\nd")), vec!["a b", "", "c\r", "d"]);
    assert_eq!(strings(split_lines("a\n")), vec!["a", ""]);
    assert_eq!(strings(split_lines("")), vec![""]);
}

#[test]
fn fields_are_split_at_white_space() {
    let line = chars("  cpu0 \t 12\u{3000}7\r");
    assert_eq!(strings(split_fields(&line)), vec!["cpu0", "12", "7"]);
    assert!(split_fields(&chars(" \t ")).is_empty());
    assert!(split_fields(&chars("")).is_empty());
}

#[test]
fn fields_agree_with_the_standard_library() {
    for s in ["0.52 0.58 0.59 1/467 12345\n", "\u{85}x\u{a0}y", "one", " a  b ", "é ü\u{2028}z"] {
        let expected: Vec<&str> = s.split_whitespace().collect();
        assert_eq!(strings(split_fields(&chars(s))), expected);
    }
}

#[test]
fn first_field_of_a_load_average() {
    let field = first_field("0.52 0.58 0.59 1/467 12345\n").unwrap();
    assert_eq!(field.into_iter().collect::<String>(), "0.52");
    assert_eq!(first_field(" \n"), None);
}

#[test]
fn numbers() {
    assert_eq!(number("0"), Some(0));
    assert_eq!(number("0042"), Some(42));
    assert_eq!(number("+7"), Some(7));
    assert_eq!(number("18446744073709551615"), Some(u64::MAX));
    assert_eq!(number("000018446744073709551615"), Some(u64::MAX));
}

#[test]
fn no_numbers() {
    for s in ["", "+", "-", "-1", "++1", "1+", "1 ", "1_000", "x", "1x", "٣", "0x10"] {
        assert_eq!(number(s), None);
        assert!(s.parse::<u64>().is_err());
    }
    assert_eq!(number("18446744073709551616"), None);
    assert_eq!(number("99999999999999999999999999"), None);
    assert_eq!(number("18446744073709551616x"), None);
}

#[test]
fn number_behind_a_prefix() {
    assert_eq!(parse_number(&chars("cpu12"), 3), Some(12));
    assert_eq!(parse_number(&chars("cpu"), 3), None);
}

#[test]
fn prefixes() {
    assert!(has_prefix(&chars("cpu0 1"), "cpu"));
    assert!(has_prefix(&chars("cpu"), "cpu"));
    assert!(has_prefix(&chars("x"), ""));
    assert!(!has_prefix(&chars("cp"), "cpu"));
    assert!(!has_prefix(&chars(" cpu"), "cpu"));
}
