use regex_vm::engine::parser::{parse, ParserError, AST};

#[test]
fn simple_chars() {
    let expr = "abcd";

    assert_eq!(
        parse(expr).unwrap(),
        AST::Concat(vec![
            AST::Char('a'),
            AST::Char('b'),
            AST::Char('c'),
            AST::Char('d')
        ])
    );
}

#[test]
fn or_case() {
    let expr = "a|b|cd";

    assert_eq!(
        parse(expr).unwrap(),
        AST::Or(
            Box::new(AST::Concat(vec![AST::Char('a')])),
            Box::new(AST::Or(
                Box::new(AST::Concat(vec![AST::Char('b')])),
                Box::new(AST::Concat(vec![AST::Char('c'), AST::Char('d')]))
            ))
        )
    );
}

#[test]
fn hat_dollar_case() {
    assert_eq!(
        parse("^a").unwrap(),
        AST::Hat(Box::new(AST::Concat(vec![AST::Char('a')]))),
    );
    assert_eq!(
        parse("a$").unwrap(),
        AST::Dollar(Box::new(AST::Concat(vec![AST::Char('a')]))),
    );
    assert_eq!(
        parse("^a$").unwrap(),
        AST::Dollar(Box::new(AST::Hat(Box::new(AST::Concat(vec![AST::Char('a')]))))),
    );
}

#[test]
fn group_case() {
    assert_eq!(
        parse("(ab)*").unwrap(),
        AST::Concat(vec![AST::Star(Box::new(AST::Concat(vec![
            AST::Char('a'),
            AST::Char('b')
        ])))])
    );
}

#[test]
fn escape_case() {
    assert_eq!(
        parse("\\*\\(").unwrap(),
        AST::Concat(vec![AST::Char('*'), AST::Char('(')])
    );
}

#[test]
fn parser_error_variants() {
    assert!(matches!(parse("\\x"), Err(ParserError::InvalidEscape(1, 'x'))));
    assert!(matches!(parse("a^"), Err(ParserError::InvalidHat)));
    assert!(matches!(parse("$a"), Err(ParserError::InvalidDollar)));
    assert!(matches!(parse("*a"), Err(ParserError::NoPrev(0))));
    assert!(matches!(parse("|a"), Err(ParserError::NoPrev(0))));
    assert!(matches!(parse("(ab"), Err(ParserError::NoRightParen)));
    assert!(matches!(parse(""), Err(ParserError::Empty)));
}

#[test]
fn unmatched_close_paren_is_ignored() {
    // A `)` with no matching `(` is silently skipped by the parser.
    assert_eq!(
        parse("a)b").unwrap(),
        AST::Concat(vec![AST::Char('a'), AST::Char('b')])
    );
}
