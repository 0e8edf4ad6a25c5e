use regex_vm::engine::codegen::get_code;
use regex_vm::engine::parser::parse;
use regex_vm::engine::Instruction;

// Every program opens with the unanchored-search preamble and ends in
// `Match`, with a `Start` marker before the pattern body.
#[test]
fn single_char_program() {
    let ast = parse("a").unwrap();
    let code = get_code(&ast).unwrap();
    assert_eq!(
        code.instractions(),
        &vec![
            Instruction::Split(3, 1),
            Instruction::AnyChar,
            Instruction::Jump(0),
            Instruction::Start,
            Instruction::Char('a'),
            Instruction::Match,
        ]
    );
}

// `a|b` compiles to a split over the two branches with a jump past the
// second, exactly as the generator's layout describes.
#[test]
fn alternation_program() {
    let ast = parse("a|b").unwrap();
    let code = get_code(&ast).unwrap();
    assert_eq!(
        code.instractions(),
        &vec![
            Instruction::Split(3, 1),
            Instruction::AnyChar,
            Instruction::Jump(0),
            Instruction::Start,
            Instruction::Split(5, 7),
            Instruction::Char('a'),
            Instruction::Jump(8),
            Instruction::Char('b'),
            Instruction::Match,
        ]
    );
}

// `a*` compiles to the split-body-jump loop.
#[test]
fn star_program() {
    let ast = parse("a*").unwrap();
    let code = get_code(&ast).unwrap();
    assert_eq!(
        code.instractions(),
        &vec![
            Instruction::Split(3, 1),
            Instruction::AnyChar,
            Instruction::Jump(0),
            Instruction::Start,
            Instruction::Split(5, 7),
            Instruction::Char('a'),
            Instruction::Jump(4),
            Instruction::Match,
        ]
    );
}

// `a+` places the required first iteration before the split.
#[test]
fn plus_program() {
    let ast = parse("a+").unwrap();
    let code = get_code(&ast).unwrap();
    assert_eq!(
        code.instractions(),
        &vec![
            Instruction::Split(3, 1),
            Instruction::AnyChar,
            Instruction::Jump(0),
            Instruction::Start,
            Instruction::Char('a'),
            Instruction::Split(4, 6),
            Instruction::Match,
        ]
    );
}
