use regex_vm::engine::codegen::get_code;
use regex_vm::engine::evaluator::{eval, eval_with_pattern, EvalError};
use regex_vm::engine::parser::parse;

#[test]
fn eval_direct_both_strategies() {
    let code = get_code(&parse("^ab").unwrap()).unwrap();
    let chars: Vec<char> = vec!['a', 'b', 'x'];
    assert!(eval(&code, &chars, true).unwrap());
    assert!(eval(&code, &chars, false).unwrap());
    let other: Vec<char> = vec!['x', 'a', 'b'];
    assert!(!eval(&code, &other, true).unwrap());
    assert!(!eval(&code, &other, false).unwrap());
}

#[test]
fn eval_with_pattern_returns_leftmost_span() {
    let code = get_code(&parse("ab.").unwrap()).unwrap();
    let chars: Vec<char> = vec!['a', 'a', 'b', 'c', 'a', 'b', 'd'];
    assert_eq!(eval_with_pattern(&code, &chars, true).unwrap(), Some((1, 4)));
}

#[test]
fn eval_with_pattern_width_is_not_implemented() {
    let code = get_code(&parse("a").unwrap()).unwrap();
    let chars: Vec<char> = vec!['a'];
    assert_eq!(
        eval_with_pattern(&code, &chars, false),
        Err(EvalError::NotImplemented)
    );
}

#[test]
fn empty_input_cases() {
    let star = get_code(&parse("a*").unwrap()).unwrap();
    let empty: Vec<char> = vec![];
    assert!(eval(&star, &empty, true).unwrap());
    assert!(eval(&star, &empty, false).unwrap());
    assert_eq!(eval_with_pattern(&star, &empty, true).unwrap(), Some((0, 0)));

    let plus = get_code(&parse("a+").unwrap()).unwrap();
    assert!(!eval(&plus, &empty, true).unwrap());
    assert!(!eval(&plus, &empty, false).unwrap());
    assert_eq!(eval_with_pattern(&plus, &empty, true).unwrap(), None);
}
