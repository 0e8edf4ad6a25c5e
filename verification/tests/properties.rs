use regex_vm::do_matching;
use regex_vm::do_matching_with_pattern;
use regex_vm::engine::evaluator::EvalError;
use regex_vm::MatchError;

// The depth-first and breadth-first strategies answer alike.
#[test]
fn strategies_agree_on_examples() {
    let cases = [
        ("a|b", "a"),
        ("a|b", "b"),
        ("a|b", "c"),
        ("a|b|c", "c"),
        (".", "c"),
        (".d", "cd"),
        ("abc|def", "def"),
        ("abc|def", "efa"),
        ("(ab|cd)+", "abcdcd"),
        ("(ab|cd)+", ""),
        ("abc?", "ab"),
        ("abc?", "acd"),
        ("^abc", "abcdef"),
        ("^def", "abcdef"),
        ("def$", "abcdef"),
        ("abc$", "abcdef"),
        ("(ab)*c?", "cababc"),
        ("a?a?aa", "aa"),
    ];
    for (expr, line) in cases {
        let depth = do_matching(expr, line, true).unwrap();
        let width = do_matching(expr, line, false).unwrap();
        assert_eq!(depth, width, "strategies disagree on {expr} / {line}");
    }
}

// The captured span is absent exactly when the boolean match fails.
#[test]
fn span_agrees_with_match_on_examples() {
    let cases = [
        ("a|b", "a"),
        ("a|b", "c"),
        ("ab.", "aabcabd"),
        ("(ab)*", "cababc"),
        ("(ab)*c?", "cababc"),
        ("abc?", "acd"),
        ("^abc", "abcdef"),
        ("^def", "abcdef"),
        ("def$", "abcdef"),
        ("abc$", "abcdef"),
    ];
    for (expr, line) in cases {
        let matched = do_matching(expr, line, true).unwrap();
        let span = do_matching_with_pattern(expr, line, true).unwrap();
        assert_eq!(span.is_none(), !matched, "span disagrees on {expr} / {line}");
    }
}

// The breadth-first capturing strategy does not exist and says so.
#[test]
fn width_capture_is_not_implemented() {
    assert_eq!(
        do_matching_with_pattern("a", "a", false),
        Err(MatchError::Eval(EvalError::NotImplemented))
    );
}

// The earliest match start wins, and of two alternatives at one start the
// longer wins.
#[test]
fn leftmost_and_longest_bias() {
    assert_eq!(
        do_matching_with_pattern("a|ab", "xaby", true).unwrap(),
        Some(vec!['a', 'b'])
    );
    assert_eq!(
        do_matching_with_pattern("b|a", "xaby", true).unwrap(),
        Some(vec!['a'])
    );
    assert_eq!(do_matching_with_pattern("a*", "b", true).unwrap(), Some(vec![]));
}
