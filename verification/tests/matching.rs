use regex_vm::do_matching;
use regex_vm::do_matching_with_pattern;
use regex_vm::engine::codegen::get_code;
use regex_vm::engine::parser::parse;

#[test]
fn test_matching() {
    assert!(do_matching("*b", "bbb", true).is_err());
    assert!(do_matching("+b", "bbb", true).is_err());
    assert!(do_matching("|b", "bbb", true).is_err());
    assert!(do_matching("?b", "bbb", true).is_err());
}

#[test]
fn fail_case_001() {
    assert!(do_matching("abc?", "ab", true).unwrap());
}

#[test]
fn fail_case_002() {
    assert!(do_matching("def$", "abcdef", true).unwrap());
}

#[test]
fn benchmark_small_case() {
    let expr = "a?a?aa";
    let ast = parse(expr).unwrap();
    let _code = get_code(&ast).unwrap();
    assert!(do_matching(expr, "aa", true).unwrap());
}

#[test]
fn benchmark_big_case() {
    let expr = "a?a?a?a?a?a?a?a?a?a?aaaaaaaaaa";
    let ast = parse(expr).unwrap();
    let _code = get_code(&ast).unwrap();
    assert!(do_matching(expr, "aaaaaaaaaa", false).unwrap());
}

#[test]
fn with_pattern() {
    assert_eq!(
        do_matching_with_pattern("ab.", "aabcabd", true).unwrap(),
        Some(vec!['a', 'b', 'c'])
    );

    assert_eq!(
        do_matching_with_pattern("(ab)*", "cababc", true).unwrap(),
        Some(vec!['a', 'b', 'a', 'b'])
    );

    assert_eq!(
        do_matching_with_pattern("(ab)*c?", "cababc", true).unwrap(),
        Some(vec!['a', 'b', 'a', 'b', 'c'])
    );
}

#[test]
fn literal_round_trips() {
    assert!(do_matching("a|b", "a", true).unwrap());
    assert!(!do_matching("a|b", "c", true).unwrap());
    assert!(do_matching("(ab|cd)+", "abcdcd", true).unwrap());
    assert!(!do_matching("(ab|cd)+", "", true).unwrap());
    assert!(do_matching("abc?", "ab", true).unwrap());
    assert!(!do_matching("abc?", "acd", true).unwrap());
    assert!(do_matching("^abc", "abcdef", true).unwrap());
    assert!(!do_matching("^def", "abcdef", true).unwrap());
    assert!(do_matching("def$", "abcdef", true).unwrap());
    assert!(!do_matching("abc$", "abcdef", true).unwrap());
}

#[test]
fn wildcard_and_plus() {
    assert!(do_matching(".", "c", true).unwrap());
    assert!(do_matching(".d", "cd", true).unwrap());
    assert!(do_matching("a+", "caaad", true).unwrap());
    assert!(!do_matching("ba+", "caaad", true).unwrap());
    assert!(do_matching("\\*", "a*b", true).unwrap());
    assert!(!do_matching("\\*", "ab", true).unwrap());
}
