use playbook_cli::text::{
    chars_of, decimal_string, ends_with, find_pair, is_whitespace, join, join_path, parse_u64,
    split_at_char, str_eq, str_le, trim_bounds,
};

#[test]
fn chars_of_gives_the_characters() {
    assert_eq!(chars_of("aé b"), vec!['a', 'é', ' ', 'b']);
    assert_eq!(chars_of(""), Vec::<char>::new());
}

#[test]
fn str_eq_compares_the_characters() {
    assert!(str_eq("deploy.yaml", "deploy.yaml"));
    assert!(str_eq("", ""));
    assert!(!str_eq("deploy.yaml", "deploy.yam"));
    assert!(!str_eq("a", "b"));
    assert!(!str_eq("é", "e"));
}

#[test]
fn str_le_is_the_byte_order() {
    assert!(str_le("a", "a"));
    assert!(str_le("", "a"));
    assert!(!str_le("a", ""));
    assert!(str_le("a", "ab"));
    assert!(!str_le("ab", "a"));
    assert!(str_le("Z", "a"));
    assert!(!str_le("a", "Z"));
    assert!(str_le("10", "9"));
    assert!(str_le("z", "é"));
    let words = ["", "a", "B", "é", "ab", "a-b", "10", "9", "zz"];
    for x in words {
        for y in words {
            assert_eq!(str_le(x, y), x <= y);
        }
    }
}

#[test]
fn ends_with_tests_the_suffix() {
    assert!(ends_with("a.yaml", ".yaml"));
    assert!(ends_with(".yaml", ".yaml"));
    assert!(!ends_with("yaml", ".yaml"));
    assert!(!ends_with("a.yaml ", ".yaml"));
    assert!(!ends_with("a.YAML", ".yaml"));
    assert!(ends_with("anything", ""));
    assert!(ends_with("é.yaml", ".yaml"));
}

#[test]
fn split_gives_one_more_piece_than_separators() {
    assert_eq!(split_at_char("2-4", '-'), vec!["2", "4"]);
    assert_eq!(split_at_char("abc", '-'), vec!["abc"]);
    assert_eq!(split_at_char("", '-'), vec![""]);
    assert_eq!(split_at_char("-", '-'), vec!["", ""]);
    assert_eq!(split_at_char("-4", '-'), vec!["", "4"]);
    assert_eq!(split_at_char("a,,b,", ','), vec!["a", "", "b", ""]);
    assert_eq!(split_at_char("K=V=W", '='), vec!["K", "V", "W"]);
    for text in ["", "a", "a-b", "--", "é-é-", "-x-"] {
        let expected: Vec<String> = text.split('-').map(|p| p.to_string()).collect();
        assert_eq!(split_at_char(text, '-'), expected);
    }
}

#[test]
fn parse_u64_reads_an_index() {
    assert_eq!(parse_u64("0"), Some(0));
    assert_eq!(parse_u64("5"), Some(5));
    assert_eq!(parse_u64("007"), Some(7));
    assert_eq!(parse_u64("+5"), Some(5));
    assert_eq!(parse_u64("18446744073709551615"), Some(u64::MAX));
    assert_eq!(parse_u64("000018446744073709551615"), Some(u64::MAX));
}

#[test]
fn parse_u64_refuses_what_is_no_index() {
    assert_eq!(parse_u64(""), None);
    assert_eq!(parse_u64("+"), None);
    assert_eq!(parse_u64("-5"), None);
    assert_eq!(parse_u64("++5"), None);
    assert_eq!(parse_u64("5+"), None);
    assert_eq!(parse_u64(" 5"), None);
    assert_eq!(parse_u64("5a"), None);
    assert_eq!(parse_u64("a.yaml"), None);
    assert_eq!(parse_u64("٣"), None);
    assert_eq!(parse_u64("18446744073709551616"), None);
    assert_eq!(parse_u64("99999999999999999999999"), None);
}

#[test]
fn parse_u64_agrees_with_the_standard_parser() {
    for text in ["", "+", "0", "+0", "12", "1 2", "-1", "18446744073709551615", "18446744073709551616", "1e3", "0x10"] {
        assert_eq!(parse_u64(text), text.parse::<u64>().ok());
    }
}

#[test]
fn decimal_string_writes_the_number() {
    assert_eq!(decimal_string(0), "0");
    assert_eq!(decimal_string(7), "7");
    assert_eq!(decimal_string(10), "10");
    assert_eq!(decimal_string(1234567890), "1234567890");
    assert_eq!(decimal_string(u64::MAX), "18446744073709551615");
}

#[test]
fn whitespace_is_what_unicode_says() {
    for c in [' ', '\t', '\n', '\r', '\u{b}', '\u{c}', '\u{85}', '\u{a0}', '\u{1680}', '\u{2000}', '\u{200a}', '\u{2028}', '\u{2029}', '\u{202f}', '\u{205f}', '\u{3000}'] {
        assert!(is_whitespace(c));
    }
    for c in ['a', '0', '_', '\u{200b}', '\u{feff}', '\u{8}', '\u{e}', '{'] {
        assert!(!is_whitespace(c));
    }
    for code in 0u32..0x3100 {
        if let Some(c) = char::from_u32(code) {
            assert_eq!(is_whitespace(c), c.is_whitespace());
        }
    }
}

#[test]
fn trim_bounds_leaves_the_white_space_out() {
    let chars = chars_of("{{  name \t}}");
    assert_eq!(trim_bounds(&chars, 2, 10), (4, 8));
    let blank = chars_of("   ");
    let (a, b) = trim_bounds(&blank, 0, 3);
    assert_eq!(a, b);
    let tight = chars_of("abc");
    assert_eq!(trim_bounds(&tight, 0, 3), (0, 3));
    assert_eq!(trim_bounds(&tight, 1, 1), (1, 1));
}

#[test]
fn find_pair_finds_the_first_double() {
    let chars = chars_of("a{b{{c}}d}}");
    assert_eq!(find_pair(&chars, '{', 0), 3);
    assert_eq!(find_pair(&chars, '}', 0), 6);
    assert_eq!(find_pair(&chars, '}', 7), 9);
    assert_eq!(find_pair(&chars, '}', 10), 11);
    assert_eq!(find_pair(&chars, 'x', 0), 11);
    assert_eq!(find_pair(&chars, '{', 100), 11);
    assert_eq!(find_pair(&chars_of("{"), '{', 0), 1);
    assert_eq!(find_pair(&chars_of(""), '{', 0), 0);
}

#[test]
fn join_puts_the_separator_between() {
    let parts = vec!["a".to_string(), "b".to_string(), "c".to_string()];
    assert_eq!(join(&parts, ", "), "a, b, c");
    assert_eq!(join(&vec!["a".to_string()], ", "), "a");
    assert_eq!(join(&Vec::new(), ", "), "");
    assert_eq!(join(&vec!["".to_string(), "".to_string()], "-"), "-");
}

#[test]
fn join_path_puts_one_slash_between() {
    assert_eq!(join_path("playbooks/", "deploy.yaml"), "playbooks/deploy.yaml");
    assert_eq!(join_path("playbooks", "deploy.yaml"), "playbooks/deploy.yaml");
    assert_eq!(join_path("", "deploy.yaml"), "deploy.yaml");
    assert_eq!(join_path("/", "deploy.yaml"), "/deploy.yaml");
    assert_eq!(join_path("a/b", "c.yaml"), "a/b/c.yaml");
}
