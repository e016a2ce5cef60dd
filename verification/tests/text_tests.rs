use chess_prep::text::{parse_i32, parse_u32, split_ws, str_eq, str_lt, str_starts_with, trim, usize_to_decimal};

#[test]
fn numbers_read_as_std_reads_them() {
    for s in ["0", "7", "+7", "4294967295", "4294967296", "", "+", "-1", "1a", " 1", "007"] {
        assert_eq!(parse_u32(s), s.parse::<u32>().ok(), "{:?}", s);
    }
    for s in ["0", "-0", "-3", "+3", "2147483647", "2147483648", "-2147483648", "-2147483649", "-", "--1", "1-"] {
        assert_eq!(parse_i32(s), s.parse::<i32>().ok(), "{:?}", s);
    }
}

#[test]
fn whitespace_splits_and_trims_as_std() {
    for s in ["", "  ", "a b", "  info  depth\t8\n", "x\u{3000}y", "\u{a0}z"] {
        let want: Vec<String> = s.split_whitespace().map(|t| t.to_string()).collect();
        assert_eq!(split_ws(s), want, "{:?}", s);
        assert_eq!(trim(s), s.trim(), "{:?}", s);
    }
}

#[test]
fn text_comparisons() {
    assert!(str_eq("abc", "abc"));
    assert!(!str_eq("abc", "abd"));
    assert!(str_lt("a", "b"));
    assert!(str_lt("ab", "abc"));
    assert!(!str_lt("abc", "abc"));
    assert!(str_lt("Z", "a"));
    assert!(str_starts_with("bestmove e2e4", "bestmove"));
    assert!(!str_starts_with("best", "bestmove"));
    assert!(str_starts_with("x", ""));
}

#[test]
fn decimal_text() {
    assert_eq!(usize_to_decimal(0), "0");
    assert_eq!(usize_to_decimal(42), "42");
    assert_eq!(usize_to_decimal(1000), "1000");
}
