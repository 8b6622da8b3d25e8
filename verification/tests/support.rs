use lang_1::replacer::Replacer;
use lang_1::logger::Logger;
use lang_1::method_bindings::Bindings;
use lang_1::decimal::{parse_i64_str, parse_usize_str, parse_u32_str, i64_to_string, u64_digits};
use lang_1::pattern::{pattern_found, first_match_end};
use lang_1::text::{joined, str_eq, copy_str};
use lang_1::statics::{Token, OBJ, LIT, DICT_TOKEN, DT_STR, DT_LST, DT_NUM, DT_DCT, DT_BOL, list_text};

#[test]
fn replacer_rewrites_occurrences() {
    let r = Replacer::new();
    assert_eq!(r.BACKSLASH, "\\\\");
    assert_eq!(r.replace("\\n", "\\\\", "a\\nb".to_string(), "\n"), "a\nb");
    assert_eq!(r.replace("x", "\\\\", "axbxc".to_string(), "-"), "a-b-c");
}

#[test]
fn replacer_drops_an_occurrence_at_the_start() {
    let r = Replacer::new();
    assert_eq!(r.replace("x", "\\\\", "xab".to_string(), "y"), "ab");
}

#[test]
fn replacer_keeps_escaped_occurrences() {
    let r = Replacer::new();
    assert_eq!(r.replace("n", "\\\\", "a\\nb".to_string(), "N"), "a\\nb");
    assert_eq!(r.replace("z", "\\\\", "abc".to_string(), "N"), "abc");
}

#[test]
fn logger_dump_lists_items() {
    let mut l = Logger::new();
    l.log("first".to_string());
    l.logs("second");
    let d = l.dump();
    assert_eq!(d, vec![
        "\n\x1b[38;2;255;255;0mLOG DUMP\x1b[0m".to_string(),
        "ITEM 1: first".to_string(),
        "ITEM 2: second".to_string(),
    ]);
}

#[test]
fn bindings_know_members() {
    let b = Bindings::new();
    assert_eq!(b.get_type(DT_LST, "push"), "method");
    assert_eq!(b.get_type(DT_LST, "length"), "property");
    assert_eq!(b.get_type(DT_STR, "is_alpha"), "method");
    assert_eq!(b.get_type(DT_NUM, "to_string"), "method");
    assert_eq!(b.get_type(DT_DCT, "length"), "");
    assert_eq!(b.get_type(DT_BOL, "length"), "");
    assert!(b.validate(DT_STR, "length"));
    assert!(!b.validate(DT_NUM, "length"));
}

#[test]
fn bindings_check_objects_by_their_fields() {
    let b = Bindings::new();
    let mut o = Token::news(OBJ, "O", DICT_TOKEN);
    o.setd("f".to_string(), Token::newsb(LIT, "1")).unwrap();
    assert!(b.check_valid(&o, "f"));
    assert!(!b.check_valid(&o, "g"));
    let s = Token::newsb(LIT, "\"s\"");
    assert!(b.check_valid(&s, "length"));
    assert!(!b.check_valid(&s, "push"));
}

#[test]
fn integers_parse_as_rust_reads_them() {
    assert_eq!(parse_i64_str("42"), Some(42));
    assert_eq!(parse_i64_str("-7"), Some(-7));
    assert_eq!(parse_i64_str("+7"), Some(7));
    assert_eq!(parse_i64_str("9223372036854775807"), Some(i64::MAX));
    assert_eq!(parse_i64_str("-9223372036854775808"), Some(i64::MIN));
    assert_eq!(parse_i64_str("9223372036854775808"), None);
    assert_eq!(parse_i64_str("1.5"), None);
    assert_eq!(parse_i64_str(""), None);
    assert_eq!(parse_i64_str("-"), None);
    assert_eq!(parse_usize_str("12"), Some(12));
    assert_eq!(parse_usize_str("-1"), None);
    assert_eq!(parse_u32_str("4294967295"), Some(u32::MAX));
    assert_eq!(parse_u32_str("4294967296"), None);
}

#[test]
fn integers_are_written_in_decimal() {
    assert_eq!(i64_to_string(0), "0");
    assert_eq!(i64_to_string(-305), "-305");
    assert_eq!(i64_to_string(i64::MIN), "-9223372036854775808");
    assert_eq!(u64_digits(907), vec!['9', '0', '7']);
}

#[test]
fn written_integers_read_back() {
    for n in [0i64, 1, -1, 12345, -99999, i64::MAX, i64::MIN] {
        assert_eq!(parse_i64_str(&i64_to_string(n)), Some(n));
    }
}

#[test]
fn regular_expressions_are_asked_of_the_regex_crate() {
    assert!(pattern_found("^[0-9]+$", "123"));
    assert!(!pattern_found("^[0-9]+$", "12a"));
    assert!(!pattern_found("(", "("));
    assert_eq!(first_match_end("b+", "abbbc"), Some(4));
    assert_eq!(first_match_end("z", "abc"), None);
}

#[test]
fn text_helpers() {
    assert_eq!(joined("ab", "cd"), "abcd");
    assert!(str_eq("x", "x"));
    assert!(!str_eq("x", "y"));
    assert_eq!(copy_str("é"), "é");
}

#[test]
fn lists_print_between_brackets() {
    assert_eq!(list_text(&vec![]), "[  ]");
    assert_eq!(list_text(&vec!["a".to_string(), "bc".to_string()]), "[  'a',  'bc',  ]");
}
