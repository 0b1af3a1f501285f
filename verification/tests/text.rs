use pr_watchdog::text::{
    decimal_text, parse_u64, same_text, split_list, split_once, trim, trim_end_matches,
};

#[test]
fn trim_matches_std() {
    for s in ["", "  ", " a ", "\u{2003}x\u{85}", "a b", "\u{200b}a", "\r\nx\t"] {
        assert_eq!(trim(s), s.trim());
    }
}

#[test]
fn split_list_keeps_trimmed_non_empty_pieces() {
    assert_eq!(split_list(" a,b\n\nc\td  e ,"), vec!["a", "b", "c", "d", "e"]);
    assert!(split_list("").is_empty());
    assert!(split_list(" ,\t\n").is_empty());
    assert_eq!(split_list("x\r,y"), vec!["x", "y"]);
}

#[test]
fn split_once_at_first() {
    assert_eq!(split_once("a/b/c", '/'), Some(("a", "b/c")));
    assert_eq!(split_once("/x", '/'), Some(("", "x")));
    assert_eq!(split_once("abc", '/'), None);
    assert_eq!(split_once("é/ü", '/'), Some(("é", "ü")));
}

#[test]
fn trailing_characters_removed() {
    assert_eq!(trim_end_matches("https://api.github.com///", '/'), "https://api.github.com");
    assert_eq!(trim_end_matches("///", '/'), "");
    assert_eq!(trim_end_matches("a/b", '/'), "a/b");
}

#[test]
fn decimal_and_parse_match_std() {
    for n in [0u64, 7, 10, 99, 100, 4096, u64::MAX] {
        assert_eq!(decimal_text(n), n.to_string());
        assert_eq!(parse_u64(&n.to_string()), Some(n));
    }
    for s in ["", "+", "-1", "+5", "007", "1_000", " 1", "18446744073709551616", "99999999999999999999", "١٢"] {
        assert_eq!(parse_u64(s), s.parse::<u64>().ok(), "input {s:?}");
    }
}

#[test]
fn same_text_compares_characters() {
    assert!(same_text("clean", "clean"));
    assert!(!same_text("clean", "Clean"));
    assert!(!same_text("clean", "clean "));
    assert!(same_text("", ""));
}
