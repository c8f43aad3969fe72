use rude_core::text::{
    copy_pairs, copy_strings, decimal_string, eq_ignore_ascii_case, parse_u64, same, same_opt,
    split_once, trim,
};

#[test]
fn numbers_in_decimal() {
    assert_eq!(decimal_string(0), "0");
    assert_eq!(decimal_string(1_002_003), "1002003");
    assert_eq!(decimal_string(u64::MAX), "18446744073709551615");
}

#[test]
fn numbers_are_read_back() {
    for n in [0, 7, 10, 99, 12345, u64::MAX] {
        assert_eq!(parse_u64(&decimal_string(n)), Some(n));
    }
    assert_eq!(parse_u64("+42"), Some(42));
    assert_eq!(parse_u64("007"), Some(7));
    for bad in ["", "+", "-1", " 1", "1 ", "1x", "++1", "18446744073709551616", "999999999999999999999"] {
        assert_eq!(parse_u64(bad), None, "{}", bad);
        assert_eq!(bad.parse::<u64>().ok(), None);
    }
}

#[test]
fn white_space_is_trimmed() {
    for s in ["", " ", "a", " a ", "\t\u{3000}x y\u{2003}\n", "\u{200b}z", "\u{85}q\u{a0}"] {
        assert_eq!(trim(s), s.trim());
    }
}

#[test]
fn strings_are_cut_at_the_first_separator() {
    for s in ["", "a", "a=b", "=", "a=b=c", "=b", "ä=ö=ü"] {
        assert_eq!(split_once(s, '='), s.split_once('='));
    }
}

#[test]
fn ascii_case_is_ignored() {
    assert!(eq_ignore_ascii_case("BYTES", "bytes"));
    assert!(eq_ignore_ascii_case("ByTeS", "bytes"));
    assert!(!eq_ignore_ascii_case("byte", "bytes"));
    assert!(!eq_ignore_ascii_case("Ä", "ä"));
    assert!(same("x", "x") && !same("x", "X"));
}

#[test]
fn lists_are_copied() {
    let strings = vec!["a".to_string(), "b".to_string()];
    assert_eq!(copy_strings(&strings), strings);
    let pairs = vec![("a".to_string(), "b".to_string())];
    assert_eq!(copy_pairs(&pairs), pairs);
}

#[test]
fn optional_strings_are_compared() {
    let some = |s: &str| Some(s.to_string());
    assert!(same_opt(&some("a"), &some("a")) && same_opt(&None, &None));
    assert!(!same_opt(&some("a"), &some("b")));
    assert!(!same_opt(&some("a"), &None) && !same_opt(&None, &some("a")));
}
