//! The pattern parser: a single left-to-right pass that turns a pattern
//! string into an abstract syntax tree.
//!
//! The pass keeps two cooperating stacks: a quantifier sequence (the nodes of
//! the current concatenation, onto which a postfix `+`, `*` or `?` applies)
//! and an alternation sequence (completed concatenations separated by `|`),
//! plus a stack of saved parent contexts pushed on `(` and popped on `)`.
//! The specification functions [`parse_step`], [`parse_run`] and
//! [`parse_finish`] state that pass over mathematical sequences, and
//! [`spec_parse`] composes them; [`parse`] is proved to return exactly what
//! [`spec_parse`] says for every pattern.

use vstd::prelude::*;
use vstd::string::StrSliceExecFns;

verus! {

/// The abstract syntax tree of a pattern.
#[derive(Debug, PartialEq)]
pub enum AST {
    Char(char),
    AnyChar,
    Dollar(Box<AST>),
    Hat(Box<AST>),
    Plus(Box<AST>),
    Star(Box<AST>),
    Question(Box<AST>),
    Or(Box<AST>, Box<AST>),
    Concat(Vec<AST>),
}

/// The mathematical shape of an [`AST`]: the same variants, with a `Seq` in
/// place of the `Vec`, so that specifications can build and compare trees.
pub enum AstView {
    Char(char),
    AnyChar,
    Dollar(Box<AstView>),
    Hat(Box<AstView>),
    Plus(Box<AstView>),
    Star(Box<AstView>),
    Question(Box<AstView>),
    Or(Box<AstView>, Box<AstView>),
    Concat(Seq<AstView>),
}

/// The [`AstView`] of a tree.
pub open spec fn ast_view(ast: AST) -> AstView
    decreases ast,
{
    match ast {
        AST::Char(c) => AstView::Char(c),
        AST::AnyChar => AstView::AnyChar,
        AST::Dollar(a) => AstView::Dollar(Box::new(ast_view(*a))),
        AST::Hat(a) => AstView::Hat(Box::new(ast_view(*a))),
        AST::Plus(a) => AstView::Plus(Box::new(ast_view(*a))),
        AST::Star(a) => AstView::Star(Box::new(ast_view(*a))),
        AST::Question(a) => AstView::Question(Box::new(ast_view(*a))),
        AST::Or(a, b) => AstView::Or(Box::new(ast_view(*a)), Box::new(ast_view(*b))),
        AST::Concat(items) => AstView::Concat(asts_view(items@)),
    }
}

/// The views of a sequence of trees, element by element.
pub open spec fn asts_view(items: Seq<AST>) -> Seq<AstView>
    decreases items,
{
    if items.len() == 0 {
        Seq::empty()
    } else {
        asts_view(items.drop_last()).push(ast_view(items.last()))
    }
}

impl View for AST {
    type V = AstView;

    open spec fn view(&self) -> AstView {
        ast_view(*self)
    }
}

/// A syntax error in the pattern, the only user-facing error family.
#[derive(Debug, PartialEq)]
pub enum ParserError {
    InvalidEscape(usize, char),
    InvalidHat,
    InvalidDollar,
    NoPrev(usize),
    NoRightParen,
    Empty,
}

/// One parsing context: the quantifier sequence and the alternation
/// sequence of the current nesting level.
pub struct ContextView {
    pub quant: Seq<AstView>,
    pub alts: Seq<AstView>,
}

/// The whole parser state between two characters of the pattern.
pub struct ParseState {
    pub hat: bool,
    pub dollar: bool,
    pub quant: Seq<AstView>,
    pub alts: Seq<AstView>,
    pub stack: Seq<ContextView>,
    pub escape: bool,
}

/// The state in which parsing begins.
pub open spec fn parse_init() -> ParseState {
    ParseState {
        hat: false,
        dollar: false,
        quant: Seq::empty(),
        alts: Seq::empty(),
        stack: Seq::empty(),
        escape: false,
    }
}

/// The characters that may follow a backslash; each stands for itself.
pub open spec fn is_meta(c: char) -> bool {
    c == '\\' || c == '(' || c == ')' || c == '|' || c == '*' || c == '+' || c == '?' || c == '.'
        || c == '^' || c == '$'
}

/// Right-folds the alternation branches `alts[i..]` into nested binary `Or`
/// nodes, so that `a|b|c` becomes `Or(a, Or(b, c))`.
pub open spec fn fold_or_from(alts: Seq<AstView>, i: int) -> AstView
    recommends
        0 <= i < alts.len(),
    decreases alts.len() - i,
{
    if i + 1 >= alts.len() {
        alts[i]
    } else {
        AstView::Or(Box::new(alts[i]), Box::new(fold_or_from(alts, i + 1)))
    }
}

/// Folds a whole alternation sequence, or nothing when it is empty.
pub open spec fn fold_or_view(alts: Seq<AstView>) -> Option<AstView> {
    if alts.len() == 0 {
        Option::None
    } else {
        Option::Some(fold_or_from(alts, 0))
    }
}

/// Applies one postfix quantifier to the most recently pushed node of the
/// quantifier sequence; with nothing to quantify the pattern is rejected.
pub open spec fn step_quantifier(st: ParseState, wrapped: AstView, i: int) -> Result<
    ParseState,
    ParserError,
> {
    if st.quant.len() == 0 {
        Result::Err(ParserError::NoPrev(i as usize))
    } else {
        Result::Ok(ParseState { quant: st.quant.drop_last().push(wrapped), ..st })
    }
}

/// The effect of one pattern character on the parser state.  `i` is the
/// character's position and `n` the length of the whole pattern.
pub open spec fn parse_step(st: ParseState, c: char, i: int, n: int) -> Result<
    ParseState,
    ParserError,
> {
    if st.escape {
        if is_meta(c) {
            Result::Ok(ParseState { quant: st.quant.push(AstView::Char(c)), escape: false, ..st })
        } else {
            Result::Err(ParserError::InvalidEscape(i as usize, c))
        }
    } else if c == '+' {
        step_quantifier(st, AstView::Plus(Box::new(st.quant.last())), i)
    } else if c == '*' {
        step_quantifier(st, AstView::Star(Box::new(st.quant.last())), i)
    } else if c == '?' {
        step_quantifier(st, AstView::Question(Box::new(st.quant.last())), i)
    } else if c == '(' {
        Result::Ok(
            ParseState {
                quant: Seq::empty(),
                alts: Seq::empty(),
                stack: st.stack.push(ContextView { quant: st.quant, alts: st.alts }),
                ..st
            },
        )
    } else if c == ')' {
        if st.stack.len() == 0 {
            // A `)` with no matching `(` is silently ignored.
            Result::Ok(st)
        } else {
            let parent = st.stack.last();
            let alts1 = if st.quant.len() > 0 {
                st.alts.push(AstView::Concat(st.quant))
            } else {
                st.alts
            };
            let quant1 = match fold_or_view(alts1) {
                Option::Some(a) => parent.quant.push(a),
                Option::None => parent.quant,
            };
            Result::Ok(
                ParseState {
                    quant: quant1,
                    alts: parent.alts,
                    stack: st.stack.drop_last(),
                    ..st
                },
            )
        }
    } else if c == '|' {
        if st.quant.len() == 0 {
            Result::Err(ParserError::NoPrev(i as usize))
        } else {
            Result::Ok(
                ParseState {
                    quant: Seq::empty(),
                    alts: st.alts.push(AstView::Concat(st.quant)),
                    ..st
                },
            )
        }
    } else if c == '.' {
        Result::Ok(ParseState { quant: st.quant.push(AstView::AnyChar), ..st })
    } else if c == '^' {
        if i > 0 {
            Result::Err(ParserError::InvalidHat)
        } else {
            Result::Ok(ParseState { hat: true, ..st })
        }
    } else if c == '$' {
        if i < n - 1 {
            Result::Err(ParserError::InvalidDollar)
        } else {
            Result::Ok(ParseState { dollar: true, ..st })
        }
    } else if c == '\\' {
        Result::Ok(ParseState { escape: true, ..st })
    } else {
        Result::Ok(ParseState { quant: st.quant.push(AstView::Char(c)), ..st })
    }
}

/// Runs [`parse_step`] over the characters `s[i..]`, stopping at the first
/// error.
pub open spec fn parse_run(s: Seq<char>, i: int, st: ParseState) -> Result<
    ParseState,
    ParserError,
>
    decreases s.len() - i,
{
    if i < 0 || i >= s.len() {
        Result::Ok(st)
    } else {
        match parse_step(st, s[i], i, s.len() as int) {
            Result::Ok(st2) => parse_run(s, i + 1, st2),
            Result::Err(e) => Result::Err(e),
        }
    }
}

/// Closes parsing: an unclosed `(` is an error, the pending concatenation
/// and alternation are folded, and the anchors seen wrap the result.  A
/// pattern with no content at all is rejected as `Empty`.
pub open spec fn parse_finish(st: ParseState) -> Result<AstView, ParserError> {
    if st.stack.len() > 0 {
        Result::Err(ParserError::NoRightParen)
    } else {
        let alts1 = if st.quant.len() > 0 {
            st.alts.push(AstView::Concat(st.quant))
        } else {
            st.alts
        };
        match fold_or_view(alts1) {
            Option::Some(a) => {
                let a1 = if st.hat {
                    AstView::Hat(Box::new(a))
                } else {
                    a
                };
                let a2 = if st.dollar {
                    AstView::Dollar(Box::new(a1))
                } else {
                    a1
                };
                Result::Ok(a2)
            },
            Option::None => Result::Err(ParserError::Empty),
        }
    }
}

/// What parsing a whole pattern yields: the tree, or the first error.
pub open spec fn spec_parse(s: Seq<char>) -> Result<AstView, ParserError> {
    match parse_run(s, 0, parse_init()) {
        Result::Ok(st) => parse_finish(st),
        Result::Err(e) => Result::Err(e),
    }
}

/// Holds when running the parser from position `i` in state `st` ends as the
/// whole run from the start does: the loop invariant of [`parse`].  Kept
/// opaque so that the large step formula does not burden every proof step.
#[verifier::opaque]
pub open spec fn parse_run_pinned(s: Seq<char>, i: int, st: ParseState) -> bool {
    parse_run(s, i, st) == parse_run(s, 0, parse_init())
}

proof fn lemma_parse_run_init(s: Seq<char>)
    ensures
        parse_run_pinned(s, 0, parse_init()),
{
    reveal(parse_run_pinned);
}

proof fn lemma_parse_run_step(s: Seq<char>, i: int, st: ParseState, st2: ParseState)
    requires
        0 <= i < s.len(),
        parse_run_pinned(s, i, st),
        parse_step(st, s[i], i, s.len() as int) == Result::<ParseState, ParserError>::Ok(st2),
    ensures
        parse_run_pinned(s, i + 1, st2),
{
    reveal(parse_run_pinned);
}

proof fn lemma_parse_run_err(s: Seq<char>, i: int, st: ParseState, e: ParserError)
    requires
        0 <= i < s.len(),
        parse_run_pinned(s, i, st),
        parse_step(st, s[i], i, s.len() as int) == Result::<ParseState, ParserError>::Err(e),
    ensures
        spec_parse(s) == Result::<AstView, ParserError>::Err(e),
{
    reveal(parse_run_pinned);
}

proof fn lemma_parse_run_end(s: Seq<char>, st: ParseState)
    requires
        parse_run_pinned(s, s.len() as int, st),
    ensures
        spec_parse(s) == parse_finish(st),
{
    reveal(parse_run_pinned);
}

// ------------------------------------------------------------------
// Facts about `asts_view` that the implementation proofs use.
// ------------------------------------------------------------------

pub proof fn lemma_asts_view_push(items: Seq<AST>, a: AST)
    ensures
        asts_view(items.push(a)) == asts_view(items).push(ast_view(a)),
{
    assert(items.push(a).drop_last() =~= items);
    assert(items.push(a).last() == a);
}

pub proof fn lemma_asts_view_len(items: Seq<AST>)
    ensures
        asts_view(items).len() == items.len(),
    decreases items,
{
    if items.len() > 0 {
        lemma_asts_view_len(items.drop_last());
    }
}

pub proof fn lemma_asts_view_drop_last(items: Seq<AST>)
    requires
        items.len() > 0,
    ensures
        asts_view(items.drop_last()) == asts_view(items).drop_last(),
{
    lemma_asts_view_len(items.drop_last());
    assert(asts_view(items).drop_last() =~= asts_view(items.drop_last()));
}

// ------------------------------------------------------------------
// The implementation.
// ------------------------------------------------------------------

/// Collects the characters of a string slice into a vector.
pub(crate) fn char_vec(s: &str) -> (v: Vec<char>)
    ensures
        v@ == s@,
{
    let n = s.unicode_len();
    let mut v: Vec<char> = Vec::new();
    let mut i: usize = 0;
    while i < n
        invariant
            i <= n,
            n == s@.len(),
            v@ == s@.subrange(0, i as int),
        decreases n - i,
    {
        v.push(s.get_char(i));
        assert(v@ =~= s@.subrange(0, i + 1 as int));
        i = i + 1;
    }
    assert(v@ =~= s@);
    v
}

/// One parsing context of the implementation; see [`ContextView`].
struct Context {
    seq_quantifier: Vec<AST>,
    seq_or: Vec<AST>,
}

impl Context {
    spec fn view_spec(&self) -> ContextView {
        ContextView { quant: asts_view(self.seq_quantifier@), alts: asts_view(self.seq_or@) }
    }

    fn empty() -> (r: Context)
        ensures
            r.view_spec() == (ContextView { quant: Seq::<AstView>::empty(), alts: Seq::<
                AstView,
            >::empty() }),
    {
        Context { seq_quantifier: Vec::new(), seq_or: Vec::new() }
    }
}

/// The views of a stack of saved contexts, bottom first.
spec fn stack_view(stack: Seq<Context>) -> Seq<ContextView>
    decreases stack,
{
    if stack.len() == 0 {
        Seq::empty()
    } else {
        stack_view(stack.drop_last()).push(stack.last().view_spec())
    }
}

proof fn lemma_stack_view_push(stack: Seq<Context>, c: Context)
    ensures
        stack_view(stack.push(c)) == stack_view(stack).push(c.view_spec()),
{
    assert(stack.push(c).drop_last() =~= stack);
    assert(stack.push(c).last() == c);
}

proof fn lemma_stack_view_len(stack: Seq<Context>)
    ensures
        stack_view(stack).len() == stack.len(),
    decreases stack,
{
    if stack.len() > 0 {
        lemma_stack_view_len(stack.drop_last());
    }
}

proof fn lemma_stack_view_drop_last(stack: Seq<Context>)
    requires
        stack.len() > 0,
    ensures
        stack_view(stack.drop_last()) == stack_view(stack).drop_last(),
{
    lemma_stack_view_len(stack.drop_last());
    assert(stack_view(stack).drop_last() =~= stack_view(stack.drop_last()));
}

/// The [`ParseState`] that a set of implementation locals stands for.
spec fn exec_state(
    is_hat: bool,
    is_dollar: bool,
    context: Context,
    stack: Seq<Context>,
    escaping: bool,
) -> ParseState {
    ParseState {
        hat: is_hat,
        dollar: is_dollar,
        quant: asts_view(context.seq_quantifier@),
        alts: asts_view(context.seq_or@),
        stack: stack_view(stack),
        escape: escaping,
    }
}

/// Interprets the character after a backslash: a metacharacter stands for
/// itself, anything else is rejected.
fn parse_escape(pos: usize, c: char) -> (r: Result<AST, ParserError>)
    ensures
        is_meta(c) ==> r == Result::<AST, ParserError>::Ok(AST::Char(c)),
        !is_meta(c) ==> r == Result::<AST, ParserError>::Err(ParserError::InvalidEscape(pos, c)),
{
    match c {
        '\\' | '(' | ')' | '|' | '*' | '+' | '?' | '.' | '^' | '$' => Result::Ok(AST::Char(c)),
        _ => Result::Err(ParserError::InvalidEscape(pos, c)),
    }
}

/// The three postfix quantifiers.
enum PSQ {
    Plus,
    Star,
    Question,
}

impl PSQ {
    /// The node that this quantifier wraps around its operand.
    spec fn wrap(self, inner: AstView) -> AstView {
        match self {
            PSQ::Plus => AstView::Plus(Box::new(inner)),
            PSQ::Star => AstView::Star(Box::new(inner)),
            PSQ::Question => AstView::Question(Box::new(inner)),
        }
    }
}

/// Pops the most recent node of the quantifier sequence, wraps it in the
/// given repetition node, and pushes it back; fails when the sequence is
/// empty.
fn parse_plus_star_question(seq: &mut Vec<AST>, ast_type: PSQ, pos: usize) -> (r: Result<
    (),
    ParserError,
>)
    ensures
        old(seq)@.len() == 0 ==> (r == Result::<(), ParserError>::Err(ParserError::NoPrev(pos))
            && final(seq)@ == old(seq)@),
        old(seq)@.len() > 0 ==> (r == Result::<(), ParserError>::Ok(()) && asts_view(final(seq)@)
            == asts_view(old(seq)@).drop_last().push(
            ast_type.wrap(asts_view(old(seq)@).last()),
        )),
{
    match seq.pop() {
        Option::Some(prev) => {
            proof {
                lemma_asts_view_len(old(seq)@);
                lemma_asts_view_drop_last(old(seq)@);
            }
            let ast = match ast_type {
                PSQ::Plus => AST::Plus(Box::new(prev)),
                PSQ::Star => AST::Star(Box::new(prev)),
                PSQ::Question => AST::Question(Box::new(prev)),
            };
            proof {
                lemma_asts_view_push(old(seq)@.drop_last(), ast);
            }
            seq.push(ast);
            Result::Ok(())
        },
        Option::None => Result::Err(ParserError::NoPrev(pos)),
    }
}

/// Right-folds completed alternation branches into nested `Or` nodes; an
/// empty sequence folds to nothing.
fn fold_or(seq_or: Vec<AST>) -> (r: Option<AST>)
    ensures
        seq_or@.len() == 0 ==> r is None,
        seq_or@.len() > 0 ==> (r matches Some(a) && ast_view(a) == fold_or_from(
            asts_view(seq_or@),
            0,
        )),
{
    proof {
        lemma_asts_view_len(seq_or@);
    }
    let ghost orig = asts_view(seq_or@);
    let mut rest = seq_or;
    let mut ast: AST = match rest.pop() {
        Option::Some(a) => a,
        Option::None => {
            return Option::None;
        },
    };
    proof {
        lemma_asts_view_drop_last(seq_or@);
    }
    while rest.len() > 0
        invariant
            orig == asts_view(seq_or@),
            orig.len() == seq_or@.len(),
            rest@ == seq_or@.subrange(0, rest@.len() as int),
            rest@.len() < seq_or@.len(),
            ast_view(ast) == fold_or_from(orig, rest@.len() as int),
        decreases rest@.len(),
    {
        let ghost k = rest@.len() as int;
        let prev = match rest.pop() {
            Option::Some(a) => a,
            Option::None => {
                // Unreachable: the loop condition gives a nonempty vector.
                return Option::None;
            },
        };
        proof {
            assert(rest@ =~= seq_or@.subrange(0, k - 1));
            assert(seq_or@.subrange(0, k).drop_last() =~= seq_or@.subrange(0, k - 1));
            assert(seq_or@.subrange(0, k).last() == seq_or@[k - 1]);
            lemma_asts_view_index(seq_or@, k - 1);
        }
        ast = AST::Or(Box::new(prev), Box::new(ast));
    }
    proof {
        assert(rest@.len() == 0);
    }
    Option::Some(ast)
}

pub proof fn lemma_asts_view_index(items: Seq<AST>, i: int)
    requires
        0 <= i < items.len(),
    ensures
        asts_view(items)[i] == ast_view(items[i]),
    decreases items,
{
    lemma_asts_view_len(items);
    if i < items.len() - 1 {
        lemma_asts_view_drop_last(items);
        lemma_asts_view_index(items.drop_last(), i);
    }
}

/// Applies one pattern character to the parser's working state; the exec
/// counterpart of [`parse_step`].
fn step_char(
    is_hat: &mut bool,
    is_dollar: &mut bool,
    context: &mut Context,
    stack: &mut Vec<Context>,
    escaping: &mut bool,
    c: char,
    i: usize,
    n: usize,
) -> (r: Result<(), ParserError>)
    requires
        i < n,
    ensures
        ({
            let st = exec_state(
                *old(is_hat),
                *old(is_dollar),
                *old(context),
                old(stack)@,
                *old(escaping),
            );
            let st2 = exec_state(
                *final(is_hat),
                *final(is_dollar),
                *final(context),
                final(stack)@,
                *final(escaping),
            );
            match r {
                Result::Ok(_) => parse_step(st, c, i as int, n as int) == Result::<
                    ParseState,
                    ParserError,
                >::Ok(st2),
                Result::Err(e) => parse_step(st, c, i as int, n as int) == Result::<
                    ParseState,
                    ParserError,
                >::Err(e),
            }
        }),
{
    let ghost st = exec_state(*is_hat, *is_dollar, *context, stack@, *escaping);
    if *escaping {
        match parse_escape(i, c) {
            Result::Ok(ast) => {
                proof {
                    lemma_asts_view_push(context.seq_quantifier@, ast);
                }
                context.seq_quantifier.push(ast);
                *escaping = false;
            },
            Result::Err(e) => {
                return Result::Err(e);
            },
        }
    } else if c == '+' || c == '*' || c == '?' {
        let ast_type = if c == '+' {
            PSQ::Plus
        } else if c == '*' {
            PSQ::Star
        } else {
            PSQ::Question
        };
        proof {
            lemma_asts_view_len(context.seq_quantifier@);
        }
        match parse_plus_star_question(&mut context.seq_quantifier, ast_type, i) {
            Result::Ok(_) => {},
            Result::Err(e) => {
                return Result::Err(e);
            },
        }
    } else if c == '(' {
        let mut prev = Context::empty();
        core::mem::swap(&mut prev, context);
        proof {
            lemma_stack_view_push(stack@, prev);
        }
        stack.push(prev);
    } else if c == ')' {
        proof {
            lemma_stack_view_len(stack@);
        }
        let ghost oldstack = stack@;
        match stack.pop() {
            Option::Some(mut prev) => {
                proof {
                    assert(oldstack =~= stack@.push(prev));
                    lemma_stack_view_drop_last(oldstack);
                    lemma_asts_view_len(context.seq_quantifier@);
                }
                let mut inner = Context::empty();
                core::mem::swap(&mut inner, context);
                let Context { seq_quantifier, mut seq_or } = inner;
                if seq_quantifier.len() > 0 {
                    proof {
                        lemma_asts_view_push(seq_or@, AST::Concat(seq_quantifier));
                    }
                    seq_or.push(AST::Concat(seq_quantifier));
                }
                proof {
                    lemma_asts_view_len(seq_or@);
                }
                match fold_or(seq_or) {
                    Option::Some(ast) => {
                        proof {
                            lemma_asts_view_push(prev.seq_quantifier@, ast);
                        }
                        prev.seq_quantifier.push(ast);
                    },
                    Option::None => {},
                }
                *context = prev;
            },
            Option::None => {},
        }
    } else if c == '|' {
        proof {
            lemma_asts_view_len(context.seq_quantifier@);
        }
        if context.seq_quantifier.len() == 0 {
            return Result::Err(ParserError::NoPrev(i));
        }
        let mut inner = Context::empty();
        core::mem::swap(&mut inner, context);
        let Context { seq_quantifier, mut seq_or } = inner;
        proof {
            lemma_asts_view_push(seq_or@, AST::Concat(seq_quantifier));
        }
        seq_or.push(AST::Concat(seq_quantifier));
        *context = Context { seq_quantifier: Vec::new(), seq_or };
    } else if c == '.' {
        proof {
            lemma_asts_view_push(context.seq_quantifier@, AST::AnyChar);
        }
        context.seq_quantifier.push(AST::AnyChar);
    } else if c == '^' {
        if i > 0 {
            return Result::Err(ParserError::InvalidHat);
        }
        *is_hat = true;
    } else if c == '$' {
        if i < n - 1 {
            return Result::Err(ParserError::InvalidDollar);
        }
        *is_dollar = true;
    } else if c == '\\' {
        *escaping = true;
    } else {
        proof {
            lemma_asts_view_push(context.seq_quantifier@, AST::Char(c));
        }
        context.seq_quantifier.push(AST::Char(c));
    }
    Result::Ok(())
}

/// Parses a whole pattern; returns exactly what [`spec_parse`] describes.
pub fn parse(expr: &str) -> (r: Result<AST, ParserError>)
    ensures
        r matches Ok(a) ==> (spec_parse(expr@) matches Ok(v) && v == ast_view(a)),
        r matches Err(e) ==> spec_parse(expr@) == Result::<AstView, ParserError>::Err(e),
{
    let chars = char_vec(expr);
    let n = chars.len();
    let mut is_hat = false;
    let mut is_dollar = false;
    let mut context = Context::empty();
    let mut stack: Vec<Context> = Vec::new();
    let mut escaping = false;
    let mut i: usize = 0;
    proof {
        lemma_parse_run_init(expr@);
        assert(exec_state(is_hat, is_dollar, context, stack@, escaping) == parse_init());
    }
    while i < n
        invariant
            i <= n,
            n == expr@.len(),
            chars@ == expr@,
            parse_run_pinned(
                expr@,
                i as int,
                exec_state(is_hat, is_dollar, context, stack@, escaping),
            ),
        decreases n - i,
    {
        let ghost st = exec_state(is_hat, is_dollar, context, stack@, escaping);
        let c = chars[i];
        match step_char(
            &mut is_hat,
            &mut is_dollar,
            &mut context,
            &mut stack,
            &mut escaping,
            c,
            i,
            n,
        ) {
            Result::Ok(_) => {
                proof {
                    let st2 = exec_state(is_hat, is_dollar, context, stack@, escaping);
                    lemma_parse_run_step(expr@, i as int, st, st2);
                }
            },
            Result::Err(e) => {
                proof {
                    lemma_parse_run_err(expr@, i as int, st, e);
                }
                return Result::Err(e);
            },
        }
        i = i + 1;
    }
    // End of input: the loop state is the state of the whole run.
    let ghost st_end = exec_state(is_hat, is_dollar, context, stack@, escaping);
    proof {
        lemma_parse_run_end(expr@, st_end);
        lemma_stack_view_len(stack@);
        lemma_asts_view_len(context.seq_quantifier@);
    }
    if stack.len() > 0 {
        return Result::Err(ParserError::NoRightParen);
    }
    let Context { seq_quantifier, mut seq_or } = context;
    if seq_quantifier.len() > 0 {
        proof {
            lemma_asts_view_push(seq_or@, AST::Concat(seq_quantifier));
        }
        seq_or.push(AST::Concat(seq_quantifier));
    }
    proof {
        lemma_asts_view_len(seq_or@);
    }
    match fold_or(seq_or) {
        Option::Some(ast) => {
            let ghost av = ast_view(ast);
            let ast1 = if is_hat {
                AST::Hat(Box::new(ast))
            } else {
                ast
            };
            proof {
                assert(ast_view(ast1) == if st_end.hat {
                    AstView::Hat(Box::new(av))
                } else {
                    av
                });
            }
            let ghost av1 = ast_view(ast1);
            let ast2 = if is_dollar {
                AST::Dollar(Box::new(ast1))
            } else {
                ast1
            };
            proof {
                assert(ast_view(ast2) == if st_end.dollar {
                    AstView::Dollar(Box::new(av1))
                } else {
                    av1
                });
            }
            Result::Ok(ast2)
        },
        Option::None => Result::Err(ParserError::Empty),
    }
}

} // verus!
