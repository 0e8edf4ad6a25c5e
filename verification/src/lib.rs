//! A small regular-expression engine.
//!
//! A textual pattern is parsed into an abstract syntax tree, the tree is
//! compiled into a linear bytecode program, and the program is executed
//! against an input character sequence by a little virtual machine, either
//! depth first (backtracking) or breadth first (a work queue).  Each stage
//! carries a specification: the parser returns exactly what
//! [`engine::parser::spec_parse`] describes, the generator exactly
//! [`engine::codegen::spec_code_of`], and whenever an evaluation strategy
//! answers, its answer is exactly the reachability predicate
//! [`engine::evaluator::machine_matches`] on that program.

pub mod engine;

use crate::engine::codegen::{get_code, inst_count, spec_code_of, CodeGenError};
use crate::engine::evaluator::{bfs_run, cap_run, dfs_run, eval, eval_with_pattern, machine_matches,
    CapTask, EvalError};
use crate::engine::parser::{char_vec, parse, spec_parse, ParserError};
use vstd::prelude::*;

verus! {

/// Any failure of the pipeline: a pattern syntax error (the only
/// user-facing family), or an internal fault of code generation or
/// evaluation.
#[derive(Debug, PartialEq)]
pub enum MatchError {
    Parse(ParserError),
    CodeGen(CodeGenError),
    Eval(EvalError),
}

/// What [`do_matching`] returns: the pattern is parsed and compiled, and
/// the chosen strategy is run on the compiled program.
pub open spec fn spec_do_matching(expr: Seq<char>, line: Seq<char>, is_depth: bool, r: Result<
    bool,
    MatchError,
>) -> bool {
    match spec_parse(expr) {
        Result::Err(e) => r == Result::<bool, MatchError>::Err(MatchError::Parse(e)),
        Result::Ok(ast) => if inst_count(ast) + 5 > usize::MAX {
            r == Result::<bool, MatchError>::Err(MatchError::CodeGen(CodeGenError::PcOverFlow))
        } else {
            let code = spec_code_of(ast);
            let run = if is_depth {
                dfs_run(code, line, seq![(0usize, 0usize)], usize::MAX as nat)
            } else {
                bfs_run(code, line, seq![(0usize, 0usize)], usize::MAX as nat)
            };
            match run {
                Result::Ok(b) => r == Result::<bool, MatchError>::Ok(b) && b == machine_matches(
                    code,
                    line,
                    0,
                    0,
                ),
                Result::Err(e) => r == Result::<bool, MatchError>::Err(MatchError::Eval(e)) && e
                    == EvalError::StepLimit,
            }
        },
    }
}

/// Decides whether the pattern matches anywhere in the input, depth first
/// or breadth first: parse, compile, evaluate.
pub fn do_matching(expr: &str, line: &str, is_depth: bool) -> (r: Result<bool, MatchError>)
    ensures
        spec_do_matching(expr@, line@, is_depth, r),
{
    let ast = match parse(expr) {
        Result::Ok(a) => a,
        Result::Err(e) => {
            return Result::Err(MatchError::Parse(e));
        },
    };
    let code = match get_code(&ast) {
        Result::Ok(c) => c,
        Result::Err(e) => {
            return Result::Err(MatchError::CodeGen(e));
        },
    };
    let chars = char_vec(line);
    match eval(&code, chars.as_slice(), is_depth) {
        Result::Ok(b) => Result::Ok(b),
        Result::Err(e) => Result::Err(MatchError::Eval(e)),
    }
}

/// What [`do_matching_with_pattern`] returns: as [`spec_do_matching`],
/// with the capturing depth-first run, whose span is handed back as the
/// matched characters themselves.
pub open spec fn spec_do_matching_with_pattern(
    expr: Seq<char>,
    line: Seq<char>,
    is_depth: bool,
    r: Result<Option<Seq<char>>, MatchError>,
) -> bool {
    match spec_parse(expr) {
        Result::Err(e) => r == Result::<Option<Seq<char>>, MatchError>::Err(MatchError::Parse(e)),
        Result::Ok(ast) => if inst_count(ast) + 5 > usize::MAX {
            r == Result::<Option<Seq<char>>, MatchError>::Err(
                MatchError::CodeGen(CodeGenError::PcOverFlow),
            )
        } else if !is_depth {
            r == Result::<Option<Seq<char>>, MatchError>::Err(
                MatchError::Eval(EvalError::NotImplemented),
            )
        } else {
            let code = spec_code_of(ast);
            let run = cap_run(
                code,
                line,
                seq![CapTask::Run(0usize, 0usize, Option::<usize>::None)],
                Seq::empty(),
                usize::MAX as nat,
            );
            match run {
                Result::Ok(v) => match v {
                    Option::Some(p) => machine_matches(code, line, 0, 0) && (
                    r matches Ok(s) && s matches Some(cs) && cs == line.subrange(
                        p.0 as int,
                        p.1 as int,
                    )),
                    Option::None => !machine_matches(code, line, 0, 0) && r == Result::<
                        Option<Seq<char>>,
                        MatchError,
                    >::Ok(Option::None),
                },
                Result::Err(e) => r == Result::<Option<Seq<char>>, MatchError>::Err(
                    MatchError::Eval(e),
                ) && e == EvalError::StepLimit,
            }
        },
    }
}

/// The view of an optional character vector.
pub open spec fn span_view(r: Option<Vec<char>>) -> Option<Seq<char>> {
    match r {
        Option::Some(v) => Option::Some(v@),
        Option::None => Option::None,
    }
}

/// Copies the characters of `chars[s..e]`.
fn copy_range(chars: &Vec<char>, s: usize, e: usize) -> (v: Vec<char>)
    requires
        s <= e <= chars@.len(),
    ensures
        v@ == chars@.subrange(s as int, e as int),
{
    let mut v: Vec<char> = Vec::new();
    let mut i: usize = s;
    while i < e
        invariant
            s <= i <= e <= chars@.len(),
            v@ == chars@.subrange(s as int, i as int),
        decreases e - i,
    {
        v.push(chars[i]);
        assert(v@ =~= chars@.subrange(s as int, i + 1));
        i = i + 1;
    }
    v
}

/// Finds the matched part of the input, under unanchored leftmost search
/// with the longer alternative winning, or nothing when the pattern does
/// not match: parse, compile, evaluate for the best span.  Only the depth
/// first strategy can capture; see
/// [`engine::evaluator::eval_with_pattern`].
pub fn do_matching_with_pattern(expr: &str, line: &str, is_depth: bool) -> (r: Result<
    Option<Vec<char>>,
    MatchError,
>)
    ensures
        spec_do_matching_with_pattern(
            expr@,
            line@,
            is_depth,
            match r {
                Result::Ok(v) => Result::Ok(span_view(v)),
                Result::Err(e) => Result::Err(e),
            },
        ),
{
    let ast = match parse(expr) {
        Result::Ok(a) => a,
        Result::Err(e) => {
            return Result::Err(MatchError::Parse(e));
        },
    };
    let code = match get_code(&ast) {
        Result::Ok(c) => c,
        Result::Err(e) => {
            return Result::Err(MatchError::CodeGen(e));
        },
    };
    let chars = char_vec(line);
    match eval_with_pattern(&code, chars.as_slice(), is_depth) {
        Result::Ok(Option::Some((s, e))) => Result::Ok(
            Option::Some(copy_range(&chars, s, e)),
        ),
        Result::Ok(Option::None) => Result::Ok(Option::None),
        Result::Err(e) => Result::Err(MatchError::Eval(e)),
    }
}

/// Law: on one pattern and input, whenever the depth-first and the
/// breadth-first strategies of [`do_matching`] both answer, they agree.
pub proof fn lemma_matching_strategies_agree(
    expr: Seq<char>,
    line: Seq<char>,
    r1: Result<bool, MatchError>,
    r2: Result<bool, MatchError>,
    b1: bool,
    b2: bool,
)
    requires
        spec_do_matching(expr, line, true, r1),
        spec_do_matching(expr, line, false, r2),
        r1 == Result::<bool, MatchError>::Ok(b1),
        r2 == Result::<bool, MatchError>::Ok(b2),
    ensures
        b1 == b2,
{
}

/// Law: on one pattern and input, whenever [`do_matching_with_pattern`]
/// and [`do_matching`] both answer under the depth-first strategy, the
/// captured span is absent exactly when the match is `false`.
pub proof fn lemma_span_absent_iff_no_match(
    expr: Seq<char>,
    line: Seq<char>,
    r1: Result<bool, MatchError>,
    r2: Result<Option<Seq<char>>, MatchError>,
    b: bool,
    v: Option<Seq<char>>,
)
    requires
        spec_do_matching(expr, line, true, r1),
        spec_do_matching_with_pattern(expr, line, true, r2),
        r1 == Result::<bool, MatchError>::Ok(b),
        r2 == Result::<Option<Seq<char>>, MatchError>::Ok(v),
    ensures
        (v is None) == !b,
{
}

} // verus!
