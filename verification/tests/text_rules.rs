use drawguess::text::{parse_u32, parse_usize, split_lines, split_str, validate_username};

#[test]
fn split_plain() {
    let parts = split_str("a,b,c", ',');
    assert_eq!(parts, vec!["a".to_string(), "b".to_string(), "c".to_string()]);
}

#[test]
fn split_empty_pieces() {
    let parts = split_str(",x,", ',');
    assert_eq!(parts, vec!["".to_string(), "x".to_string(), "".to_string()]);
}

#[test]
fn split_no_separator() {
    assert_eq!(split_str("hello", ','), vec!["hello".to_string()]);
}

#[test]
fn split_empty_string() {
    assert_eq!(split_str("", ','), vec!["".to_string()]);
}

#[test]
fn lines_basic() {
    let lines = split_lines("one\ntwo\nthree");
    assert_eq!(
        lines,
        vec!["one".to_string(), "two".to_string(), "three".to_string()]
    );
}

#[test]
fn lines_trailing_newline_and_cr() {
    assert_eq!(
        split_lines("a\r\nb\n"),
        vec!["a".to_string(), "b".to_string()]
    );
    assert_eq!(split_lines(""), Vec::<String>::new());
    assert_eq!(split_lines("x\n\ny"), vec!["x", "", "y"]);
}

#[test]
fn parse_usize_basics() {
    assert_eq!(parse_usize("0"), Some(0));
    assert_eq!(parse_usize("007"), Some(7));
    assert_eq!(parse_usize("1234"), Some(1234));
    assert_eq!(parse_usize(""), None);
    assert_eq!(parse_usize("12a"), None);
    assert_eq!(parse_usize("-3"), None);
    assert_eq!(parse_usize(" 3"), None);
    assert_eq!(
        parse_usize("999999999999999999999999999999999999999"),
        None
    );
}

#[test]
fn parse_u32_bounds() {
    assert_eq!(parse_u32("4294967295"), Some(u32::MAX));
    assert_eq!(parse_u32("4294967296"), None);
    assert_eq!(parse_u32("500"), Some(500));
}

#[test]
fn username_rules() {
    assert!(validate_username("Alice"));
    assert!(validate_username("abcdefghijklmn")); // 14 characters
    assert!(!validate_username("abcdefghijklmno")); // 15 characters
    assert!(!validate_username(""));
    assert!(!validate_username("a,b"));
}
