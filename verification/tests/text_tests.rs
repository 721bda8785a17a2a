use updater_core::errors::{classify_tool_exit, Outcome, UpdateError};
use updater_core::text::{bytes_eq, contains_bytes, parse_u64_dec, split_lines, to_lower_bytes,
    tokenize, trim_bytes};

#[test]
fn decimal_parsing_accepts_digits_only() {
    assert_eq!(parse_u64_dec(b"0"), Some(0));
    assert_eq!(parse_u64_dec(b"2952790016"), Some(2952790016));
    assert_eq!(parse_u64_dec(b"18446744073709551615"), Some(u64::MAX));
    assert_eq!(parse_u64_dec(b"18446744073709551616"), None);
    assert_eq!(parse_u64_dec(b""), None);
    assert_eq!(parse_u64_dec(b"12a"), None);
    assert_eq!(parse_u64_dec(b"-1"), None);
}

#[test]
fn tokenizing_splits_on_runs_of_whitespace() {
    let toks = tokenize(b"  add_group \t qti auto  ");
    assert_eq!(toks, vec![b"add_group".to_vec(), b"qti".to_vec(), b"auto".to_vec()]);
    assert!(tokenize(b" \t ").is_empty());
}

#[test]
fn line_splitting_keeps_inner_empties_only() {
    let ls = split_lines(b"a\n\nb\n");
    assert_eq!(ls, vec![b"a".to_vec(), b"".to_vec(), b"b".to_vec()]);
    assert!(split_lines(b"").is_empty());
    assert_eq!(split_lines(b"x"), vec![b"x".to_vec()]);
}

#[test]
fn trimming_and_case_folding() {
    assert_eq!(trim_bytes(b" \t hotdog \r\n"), b"hotdog".to_vec());
    assert_eq!(to_lower_bytes(b"DiSaBlEd"), b"disabled".to_vec());
}

#[test]
fn substring_and_equality_tests() {
    assert!(contains_bytes(b"system_b", b"_b"));
    assert!(!contains_bytes(b"system_a", b"_b"));
    assert!(contains_bytes(b"anything", b""));
    assert!(bytes_eq(b"abc", b"abc"));
    assert!(!bytes_eq(b"abc", b"abd"));
}

#[test]
fn tool_exits_classify_by_best_effort() {
    let e = UpdateError::TableCompilerFailed;
    assert_eq!(classify_tool_exit(true, true, e), Outcome::Done);
    assert_eq!(classify_tool_exit(true, false, e), Outcome::Warning);
    assert_eq!(classify_tool_exit(false, false, e), Outcome::Fatal(e));
    assert_eq!(classify_tool_exit(false, true, e), Outcome::Done);
}
