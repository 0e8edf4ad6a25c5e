//! The code generator: walks the syntax tree and emits a flat bytecode
//! program, resolving jump targets by back-patching.
//!
//! The specification function [`gen_spec`] gives the exact instruction
//! sequence for every tree and starting address, and [`spec_code_of`] the
//! whole program: the unanchored-search preamble, the pattern body, and a
//! final `Match`.  [`get_code`] is proved to produce exactly that program,
//! and to fail only when the address space would be exhausted.

use crate::engine::parser::{asts_view, lemma_asts_view_index, lemma_asts_view_len, AST, AstView};
use crate::engine::{code_with_preamble, Code, Instruction};
use vstd::prelude::*;

verus! {

/// An internal failure of code generation.  Only `PcOverFlow` can occur;
/// the other kinds are reserved for structural validation.
#[derive(Debug, PartialEq)]
pub enum CodeGenError {
    PcOverFlow,
    FailStar,
    FailOr,
    FailQuestion,
}

/// The number of nodes of a tree; the termination measure of the generator.
pub open spec fn ast_size(ast: AstView) -> nat
    decreases ast,
{
    match ast {
        AstView::Char(_) => 1,
        AstView::AnyChar => 1,
        AstView::Dollar(a) => 1 + ast_size(*a),
        AstView::Hat(a) => 1 + ast_size(*a),
        AstView::Plus(a) => 1 + ast_size(*a),
        AstView::Star(a) => 1 + ast_size(*a),
        AstView::Question(a) => 1 + ast_size(*a),
        AstView::Or(a, b) => 1 + ast_size(*a) + ast_size(*b),
        AstView::Concat(items) => 1 + asts_sizes(items),
    }
}

/// The node count of a sequence of trees.
pub open spec fn asts_sizes(items: Seq<AstView>) -> nat
    decreases items,
{
    if items.len() == 0 {
        0
    } else {
        asts_sizes(items.drop_last()) + ast_size(items.last())
    }
}

proof fn lemma_asts_sizes_element(items: Seq<AstView>, i: int)
    requires
        0 <= i < items.len(),
    ensures
        ast_size(items[i]) <= asts_sizes(items),
    decreases items,
{
    if i < items.len() - 1 {
        lemma_asts_sizes_element(items.drop_last(), i);
    }
}

/// How many instructions a tree compiles to.
pub open spec fn inst_count(ast: AstView) -> nat
    decreases ast,
{
    match ast {
        AstView::Char(_) => 1,
        AstView::AnyChar => 1,
        AstView::Dollar(a) => 1 + inst_count(*a),
        AstView::Hat(a) => 1 + inst_count(*a),
        AstView::Plus(a) => 1 + inst_count(*a),
        AstView::Star(a) => 2 + inst_count(*a),
        AstView::Question(a) => 1 + inst_count(*a),
        AstView::Or(a, b) => 2 + inst_count(*a) + inst_count(*b),
        AstView::Concat(items) => insts_count(items),
    }
}

/// How many instructions a sequence of trees compiles to.
pub open spec fn insts_count(items: Seq<AstView>) -> nat
    decreases items,
{
    if items.len() == 0 {
        0
    } else {
        insts_count(items.drop_last()) + inst_count(items.last())
    }
}

/// The instructions emitted for a tree whose first instruction stands at
/// address `start`; see the per-construct layout in the generator methods.
pub open spec fn gen_spec(ast: AstView, start: int) -> Seq<Instruction>
    decreases ast,
{
    match ast {
        AstView::Char(c) => seq![Instruction::Char(c)],
        AstView::AnyChar => seq![Instruction::AnyChar],
        AstView::Hat(a) => seq![Instruction::IsHead] + gen_spec(*a, start + 1),
        AstView::Dollar(a) => gen_spec(*a, start) + seq![Instruction::IsTail],
        AstView::Question(a) => {
            let body = gen_spec(*a, start + 1);
            seq![Instruction::Split((start + 1) as usize, (start + 1 + body.len()) as usize)]
                + body
        },
        AstView::Plus(a) => {
            let body = gen_spec(*a, start);
            body + seq![Instruction::Split(start as usize, (start + body.len() + 1) as usize)]
        },
        AstView::Star(a) => {
            let body = gen_spec(*a, start + 1);
            seq![Instruction::Split((start + 1) as usize, (start + 2 + body.len()) as usize)]
                + body + seq![Instruction::Jump(start as usize)]
        },
        AstView::Or(a, b) => {
            let left = gen_spec(*a, start + 1);
            let right = gen_spec(*b, start + 2 + left.len());
            seq![Instruction::Split((start + 1) as usize, (start + 2 + left.len()) as usize)]
                + left + seq![
                Instruction::Jump((start + 2 + left.len() + right.len()) as usize),
            ] + right
        },
        AstView::Concat(items) => gens_spec(items, start),
    }
}

/// The instructions emitted for a sequence of trees, one after the other.
pub open spec fn gens_spec(items: Seq<AstView>, start: int) -> Seq<Instruction>
    decreases items,
{
    if items.len() == 0 {
        Seq::empty()
    } else {
        let prefix = gens_spec(items.drop_last(), start);
        prefix + gen_spec(items.last(), start + prefix.len())
    }
}

pub proof fn lemma_gen_spec_len(ast: AstView, start: int)
    ensures
        gen_spec(ast, start).len() == inst_count(ast),
    decreases ast,
{
    match ast {
        AstView::Char(_) => {},
        AstView::AnyChar => {},
        AstView::Hat(a) => {
            lemma_gen_spec_len(*a, start + 1);
        },
        AstView::Dollar(a) => {
            lemma_gen_spec_len(*a, start);
        },
        AstView::Question(a) => {
            lemma_gen_spec_len(*a, start + 1);
        },
        AstView::Plus(a) => {
            lemma_gen_spec_len(*a, start);
        },
        AstView::Star(a) => {
            lemma_gen_spec_len(*a, start + 1);
        },
        AstView::Or(a, b) => {
            lemma_gen_spec_len(*a, start + 1);
            lemma_gen_spec_len(*b, start + 2 + gen_spec(*a, start + 1).len());
        },
        AstView::Concat(items) => {
            lemma_gens_spec_len(items, start);
        },
    }
}

pub proof fn lemma_gens_spec_len(items: Seq<AstView>, start: int)
    ensures
        gens_spec(items, start).len() == insts_count(items),
    decreases items,
{
    if items.len() > 0 {
        lemma_gens_spec_len(items.drop_last(), start);
        lemma_gen_spec_len(items.last(), start + gens_spec(items.drop_last(), start).len());
    }
}

/// Every jump target of `code` lies between `lo` and `hi`, and no `Nop`
/// placeholder remains.
pub open spec fn targets_ok(code: Seq<Instruction>, lo: int, hi: int) -> bool {
    forall|i: int|
        0 <= i < code.len() ==> match #[trigger] code[i] {
            Instruction::Jump(t) => lo <= t <= hi,
            Instruction::Split(a, b) => lo <= a <= hi && lo <= b <= hi,
            Instruction::Nop => false,
            _ => true,
        }
}

pub proof fn lemma_gen_spec_targets(ast: AstView, start: int)
    requires
        0 <= start,
        start + inst_count(ast) <= usize::MAX,
    ensures
        targets_ok(gen_spec(ast, start), start, start + inst_count(ast)),
    decreases ast,
{
    lemma_gen_spec_len(ast, start);
    match ast {
        AstView::Char(_) => {},
        AstView::AnyChar => {},
        AstView::Hat(a) => {
            lemma_gen_spec_len(*a, start + 1);
            lemma_gen_spec_targets(*a, start + 1);
        },
        AstView::Dollar(a) => {
            lemma_gen_spec_len(*a, start);
            lemma_gen_spec_targets(*a, start);
        },
        AstView::Question(a) => {
            lemma_gen_spec_len(*a, start + 1);
            lemma_gen_spec_targets(*a, start + 1);
        },
        AstView::Plus(a) => {
            lemma_gen_spec_len(*a, start);
            lemma_gen_spec_targets(*a, start);
        },
        AstView::Star(a) => {
            lemma_gen_spec_len(*a, start + 1);
            lemma_gen_spec_targets(*a, start + 1);
        },
        AstView::Or(a, b) => {
            let left = gen_spec(*a, start + 1);
            lemma_gen_spec_len(*a, start + 1);
            lemma_gen_spec_len(*b, start + 2 + left.len());
            lemma_gen_spec_targets(*a, start + 1);
            lemma_gen_spec_targets(*b, start + 2 + left.len());
        },
        AstView::Concat(items) => {
            lemma_gens_spec_targets(items, start);
        },
    }
}

pub proof fn lemma_gens_spec_targets(items: Seq<AstView>, start: int)
    requires
        0 <= start,
        start + insts_count(items) <= usize::MAX,
    ensures
        targets_ok(gens_spec(items, start), start, start + insts_count(items)),
    decreases items,
{
    lemma_gens_spec_len(items, start);
    if items.len() > 0 {
        let prefix = gens_spec(items.drop_last(), start);
        lemma_gens_spec_len(items.drop_last(), start);
        lemma_gen_spec_len(items.last(), start + prefix.len());
        lemma_gens_spec_targets(items.drop_last(), start);
        lemma_gen_spec_targets(items.last(), start + prefix.len());
    }
}

/// The fixed unanchored-search preamble: at the current offset, first try
/// the pattern body (the `Start` marker at address 3); if that whole attempt
/// fails, consume one character and retry from address 0.
pub open spec fn preamble() -> Seq<Instruction> {
    seq![
        Instruction::Split(3, 1),
        Instruction::AnyChar,
        Instruction::Jump(0),
        Instruction::Start,
    ]
}

/// The whole program compiled from a tree: the preamble, the pattern body
/// at address 4, and a final `Match`.
pub open spec fn spec_code_of(ast: AstView) -> Seq<Instruction> {
    preamble() + gen_spec(ast, 4) + seq![Instruction::Match]
}

/// A compiled program is well formed in the sense of
/// [`code_with_preamble`], as long as its addresses fit the machine.
pub proof fn lemma_spec_code_of_wf(ast: AstView)
    requires
        inst_count(ast) + 5 <= usize::MAX,
    ensures
        code_with_preamble(spec_code_of(ast)),
{
    let body = gen_spec(ast, 4);
    lemma_gen_spec_len(ast, 4);
    lemma_gen_spec_targets(ast, 4);
    let code = spec_code_of(ast);
    assert(code.len() == 5 + inst_count(ast));
    assert forall|i: int| 0 <= i < code.len() implies match #[trigger] code[i] {
        Instruction::Jump(t) => t < code.len() && (i >= 4 ==> t >= 4),
        Instruction::Split(a, b) => a < code.len() && b < code.len() && (i >= 4 ==> a >= 4 && b
            >= 4),
        Instruction::Nop => false,
        _ => true,
    } by {
        if 4 <= i < 4 + body.len() {
            assert(code[i] == body[i - 4]);
            assert(targets_ok(body, 4, 4 + inst_count(ast) as int));
        }
    }
}

/// The mutable state of one compilation: the program counter, always the
/// address of the next instruction to append, and the instructions so far.
struct Generator {
    pc: usize,
    instructions: Vec<Instruction>,
}

impl Generator {
    /// The program counter always equals the number of emitted instructions.
    spec fn wf(&self) -> bool {
        self.pc == self.instructions@.len()
    }

    fn new() -> (r: Generator)
        ensures
            r.wf(),
            r.pc == 0,
            r.instructions@ == Seq::<Instruction>::empty(),
    {
        Generator { pc: 0, instructions: Vec::new() }
    }

    /// Advances the program counter, with overflow checked rather than
    /// assumed impossible.
    fn inc_pc(&mut self) -> (r: Result<(), CodeGenError>)
        ensures
            final(self).instructions == old(self).instructions,
            old(self).pc < usize::MAX ==> (r == Result::<(), CodeGenError>::Ok(())
                && final(self).pc == old(self).pc + 1),
            old(self).pc == usize::MAX ==> (r == Result::<(), CodeGenError>::Err(
                CodeGenError::PcOverFlow,
            ) && final(self).pc == old(self).pc),
    {
        match self.pc.checked_add(1) {
            Option::Some(next) => {
                self.pc = next;
                Result::Ok(())
            },
            Option::None => Result::Err(CodeGenError::PcOverFlow),
        }
    }

    /// Emits the code of any construct.
    fn gen_expr(&mut self, ast: &AST) -> (r: Result<(), CodeGenError>)
        requires
            old(self).wf(),
        ensures
            r is Ok ==> final(self).wf(),
            r is Ok <==> old(self).pc + inst_count(ast@) <= usize::MAX,
            r is Ok ==> final(self).instructions@ == old(self).instructions@ + gen_spec(
                ast@,
                old(self).pc as int,
            ),
            r matches Err(e) ==> e == CodeGenError::PcOverFlow,
        decreases ast_size(ast@), 1int,
    {
        proof {
            lemma_gen_spec_len(ast@, old(self).pc as int);
        }
        match ast {
            AST::Char(c) => self.gen_char(*c),
            AST::AnyChar => self.gen_anychar(),
            AST::Dollar(a) => {
                proof {
                    lemma_ast_size_unary(ast@);
                }
                self.gen_dollar(a)
            },
            AST::Hat(a) => {
                proof {
                    lemma_ast_size_unary(ast@);
                }
                self.gen_hat(a)
            },
            AST::Or(a, b) => {
                proof {
                    lemma_ast_size_unary(ast@);
                }
                self.gen_or(a, b)
            },
            AST::Plus(a) => {
                proof {
                    lemma_ast_size_unary(ast@);
                }
                self.gen_plus(a)
            },
            AST::Star(a) => {
                proof {
                    lemma_ast_size_unary(ast@);
                }
                self.gen_star(a)
            },
            AST::Question(a) => {
                proof {
                    lemma_ast_size_unary(ast@);
                }
                self.gen_question(a)
            },
            AST::Concat(asts) => {
                proof {
                    lemma_ast_size_unary(ast@);
                }
                self.gen_seq(asts)
            },
        }
    }

    /// A literal character is one `Char` instruction.
    fn gen_char(&mut self, c: char) -> (r: Result<(), CodeGenError>)
        requires
            old(self).wf(),
        ensures
            r is Ok ==> final(self).wf(),
            r is Ok <==> old(self).pc + 1 <= usize::MAX,
            r is Ok ==> final(self).instructions@ == old(self).instructions@ + seq![
                Instruction::Char(c),
            ],
            r matches Err(e) ==> e == CodeGenError::PcOverFlow,
    {
        self.instructions.push(Instruction::Char(c));
        self.inc_pc()?;
        Result::Ok(())
    }

    /// The wildcard is one `AnyChar` instruction.
    fn gen_anychar(&mut self) -> (r: Result<(), CodeGenError>)
        requires
            old(self).wf(),
        ensures
            r is Ok ==> final(self).wf(),
            r is Ok <==> old(self).pc + 1 <= usize::MAX,
            r is Ok ==> final(self).instructions@ == old(self).instructions@ + seq![
                Instruction::AnyChar,
            ],
            r matches Err(e) ==> e == CodeGenError::PcOverFlow,
    {
        self.instructions.push(Instruction::AnyChar);
        self.inc_pc()?;
        Result::Ok(())
    }

    /// `^` compiles to `IsHead` followed by the anchored body.
    fn gen_hat(&mut self, expr: &AST) -> (r: Result<(), CodeGenError>)
        requires
            old(self).wf(),
        ensures
            r is Ok ==> final(self).wf(),
            r is Ok <==> old(self).pc + inst_count(AstView::Hat(Box::new(expr@))) <= usize::MAX,
            r is Ok ==> final(self).instructions@ == old(self).instructions@ + gen_spec(
                AstView::Hat(Box::new(expr@)),
                old(self).pc as int,
            ),
            r matches Err(e) ==> e == CodeGenError::PcOverFlow,
        decreases ast_size(expr@), 2int,
    {
        proof {
            lemma_gen_spec_len(expr@, old(self).pc + 1);
        }
        self.instructions.push(Instruction::IsHead);
        self.inc_pc()?;
        self.gen_expr(expr)?;
        proof {
            assert(self.instructions@ =~= old(self).instructions@ + gen_spec(
                AstView::Hat(Box::new(expr@)),
                old(self).pc as int,
            ));
        }
        Result::Ok(())
    }

    /// `$` compiles to the body followed by `IsTail`.
    fn gen_dollar(&mut self, expr: &AST) -> (r: Result<(), CodeGenError>)
        requires
            old(self).wf(),
        ensures
            r is Ok ==> final(self).wf(),
            r is Ok <==> old(self).pc + inst_count(AstView::Dollar(Box::new(expr@)))
                <= usize::MAX,
            r is Ok ==> final(self).instructions@ == old(self).instructions@ + gen_spec(
                AstView::Dollar(Box::new(expr@)),
                old(self).pc as int,
            ),
            r matches Err(e) ==> e == CodeGenError::PcOverFlow,
        decreases ast_size(expr@), 2int,
    {
        proof {
            lemma_gen_spec_len(expr@, old(self).pc as int);
        }
        self.gen_expr(expr)?;
        self.instructions.push(Instruction::IsTail);
        self.inc_pc()?;
        proof {
            assert(self.instructions@ =~= old(self).instructions@ + gen_spec(
                AstView::Dollar(Box::new(expr@)),
                old(self).pc as int,
            ));
        }
        Result::Ok(())
    }

    /// Alternation: `Split` into the left branch or the right branch, with a
    /// `Jump` over the right branch when the left one finishes.  Both
    /// addresses are back-patched over `Nop` placeholders.
    fn gen_or(&mut self, expr_left: &AST, expr_right: &AST) -> (r: Result<(), CodeGenError>)
        requires
            old(self).wf(),
        ensures
            r is Ok ==> final(self).wf(),
            r is Ok <==> old(self).pc + inst_count(
                AstView::Or(Box::new(expr_left@), Box::new(expr_right@)),
            ) <= usize::MAX,
            r is Ok ==> final(self).instructions@ == old(self).instructions@ + gen_spec(
                AstView::Or(Box::new(expr_left@), Box::new(expr_right@)),
                old(self).pc as int,
            ),
            r matches Err(e) ==> e == CodeGenError::PcOverFlow,
        decreases ast_size(expr_left@) + ast_size(expr_right@), 2int,
    {
        let ghost start = old(self).pc as int;
        let ghost left = gen_spec(expr_left@, start + 1);
        proof {
            lemma_gen_spec_len(expr_left@, start + 1);
            lemma_gen_spec_len(expr_right@, start + 2 + left.len());
            lemma_ast_size_pos(expr_right@);
            lemma_ast_size_pos(expr_left@);
        }
        self.instructions.push(Instruction::Nop);
        let split_inst_pc = self.pc;
        self.inc_pc()?;
        let split_branch1_pc = self.pc;
        self.gen_expr(expr_left)?;
        self.instructions.push(Instruction::Nop);
        let jump_pc = self.pc;
        self.inc_pc()?;
        let split_branch2_pc = self.pc;
        self.gen_expr(expr_right)?;

        self.instructions[split_inst_pc] = Instruction::Split(split_branch1_pc, split_branch2_pc);
        self.instructions[jump_pc] = Instruction::Jump(self.pc);
        proof {
            assert(self.instructions@ =~= old(self).instructions@ + gen_spec(
                AstView::Or(Box::new(expr_left@), Box::new(expr_right@)),
                start,
            ));
        }
        Result::Ok(())
    }

    /// `?`: `Split` into the body or past it; the skip address is
    /// back-patched once the body's end is known.
    fn gen_question(&mut self, expr: &AST) -> (r: Result<(), CodeGenError>)
        requires
            old(self).wf(),
        ensures
            r is Ok ==> final(self).wf(),
            r is Ok <==> old(self).pc + inst_count(AstView::Question(Box::new(expr@)))
                <= usize::MAX,
            r is Ok ==> final(self).instructions@ == old(self).instructions@ + gen_spec(
                AstView::Question(Box::new(expr@)),
                old(self).pc as int,
            ),
            r matches Err(e) ==> e == CodeGenError::PcOverFlow,
        decreases ast_size(expr@), 2int,
    {
        let ghost start = old(self).pc as int;
        proof {
            lemma_gen_spec_len(expr@, start + 1);
        }
        self.instructions.push(Instruction::Nop);
        let split_inst_pc = self.pc;
        self.inc_pc()?;
        let split_branch1_pc = self.pc;

        self.gen_expr(expr)?;

        self.instructions[split_inst_pc] = Instruction::Split(split_branch1_pc, self.pc);
        proof {
            assert(self.instructions@ =~= old(self).instructions@ + gen_spec(
                AstView::Question(Box::new(expr@)),
                start,
            ));
        }
        Result::Ok(())
    }

    /// `+`: the body once, then `Split` back to it or onward.
    fn gen_plus(&mut self, expr: &AST) -> (r: Result<(), CodeGenError>)
        requires
            old(self).wf(),
        ensures
            r is Ok ==> final(self).wf(),
            r is Ok <==> old(self).pc + inst_count(AstView::Plus(Box::new(expr@))) <= usize::MAX,
            r is Ok ==> final(self).instructions@ == old(self).instructions@ + gen_spec(
                AstView::Plus(Box::new(expr@)),
                old(self).pc as int,
            ),
            r matches Err(e) ==> e == CodeGenError::PcOverFlow,
        decreases ast_size(expr@), 2int,
    {
        let ghost start = old(self).pc as int;
        proof {
            lemma_gen_spec_len(expr@, start);
        }
        let jump_pc = self.pc;

        self.gen_expr(expr)?;
        let split_pc = self.pc;
        self.instructions.push(Instruction::Nop);
        self.inc_pc()?;

        self.instructions[split_pc] = Instruction::Split(jump_pc, self.pc);
        proof {
            assert(self.instructions@ =~= old(self).instructions@ + gen_spec(
                AstView::Plus(Box::new(expr@)),
                start,
            ));
        }
        Result::Ok(())
    }

    /// `*`: `Split` into the body or past it, with a `Jump` back to the
    /// `Split` after the body: repeat any number of times or skip entirely.
    fn gen_star(&mut self, expr: &AST) -> (r: Result<(), CodeGenError>)
        requires
            old(self).wf(),
        ensures
            r is Ok ==> final(self).wf(),
            r is Ok <==> old(self).pc + inst_count(AstView::Star(Box::new(expr@))) <= usize::MAX,
            r is Ok ==> final(self).instructions@ == old(self).instructions@ + gen_spec(
                AstView::Star(Box::new(expr@)),
                old(self).pc as int,
            ),
            r matches Err(e) ==> e == CodeGenError::PcOverFlow,
        decreases ast_size(expr@), 2int,
    {
        let ghost start = old(self).pc as int;
        proof {
            lemma_gen_spec_len(expr@, start + 1);
        }
        let split_pc = self.pc;
        self.instructions.push(Instruction::Nop);
        self.inc_pc()?;

        let branch1_pc = self.pc;
        self.gen_expr(expr)?;
        self.instructions.push(Instruction::Jump(split_pc));
        self.inc_pc()?;

        self.instructions[split_pc] = Instruction::Split(branch1_pc, self.pc);
        proof {
            assert(self.instructions@ =~= old(self).instructions@ + gen_spec(
                AstView::Star(Box::new(expr@)),
                start,
            ));
        }
        Result::Ok(())
    }

    /// Concatenation: each item in order, with no separating instructions.
    fn gen_seq(&mut self, exprs: &Vec<AST>) -> (r: Result<(), CodeGenError>)
        requires
            old(self).wf(),
        ensures
            r is Ok ==> final(self).wf(),
            r is Ok <==> old(self).pc + insts_count(asts_view(exprs@)) <= usize::MAX,
            r is Ok ==> final(self).instructions@ == old(self).instructions@ + gens_spec(
                asts_view(exprs@),
                old(self).pc as int,
            ),
            r matches Err(e) ==> e == CodeGenError::PcOverFlow,
        decreases asts_sizes(asts_view(exprs@)), 2int,
    {
        let ghost views = asts_view(exprs@);
        let ghost start = old(self).pc as int;
        proof {
            lemma_asts_view_len(exprs@);
            lemma_gens_spec_len(views, start);
            assert(views.take(0) =~= Seq::<AstView>::empty());
        }
        let n = exprs.len();
        let mut i: usize = 0;
        while i < n
            invariant
                self.wf(),
                n == exprs@.len(),
                views == asts_view(exprs@),
                views.len() == n,
                i <= n,
                start == old(self).pc as int,
                self.instructions@ == old(self).instructions@ + gens_spec(views.take(i as int),
                    start),
                self.pc == start + insts_count(views.take(i as int)),
                insts_count(views.take(i as int)) <= insts_count(views),
            decreases n - i,
        {
            let ghost pre = views.take(i as int);
            proof {
                lemma_asts_view_index(exprs@, i as int);
                lemma_asts_sizes_element(views, i as int);
                lemma_gens_spec_len(pre, start);
                lemma_gen_spec_len(views[i as int], start + gens_spec(pre, start).len());
                lemma_insts_count_take(views, i as int);
            }
            match self.gen_expr(&exprs[i]) {
                Result::Ok(_) => {},
                Result::Err(e) => {
                    proof {
                        lemma_insts_count_take_le(views, i as int);
                    }
                    return Result::Err(e);
                },
            }
            proof {
                assert(views.take(i + 1).drop_last() =~= pre);
                assert(views.take(i + 1).last() == views[i as int]);
                assert(gens_spec(views.take(i + 1), start) == gens_spec(pre, start) + gen_spec(
                    views[i as int],
                    start + gens_spec(pre, start).len(),
                ));
                assert(self.instructions@ =~= old(self).instructions@ + gens_spec(
                    views.take(i + 1),
                    start,
                ));
                lemma_insts_count_take_le(views, i as int);
            }
            i = i + 1;
        }
        proof {
            assert(views.take(n as int) =~= views);
        }
        Result::Ok(())
    }

    /// Emits the fixed unanchored-search preamble at address 0.
    fn gen_skip_head(&mut self) -> (r: Result<(), CodeGenError>)
        requires
            old(self).wf(),
            old(self).pc == 0,
        ensures
            final(self).wf(),
            r == Result::<(), CodeGenError>::Ok(()),
            final(self).instructions@ == preamble(),
    {
        self.instructions.push(Instruction::Split(3, 1));
        self.inc_pc()?;
        self.instructions.push(Instruction::AnyChar);
        self.inc_pc()?;
        self.instructions.push(Instruction::Jump(0));
        self.inc_pc()?;
        self.instructions.push(Instruction::Start);
        self.inc_pc()?;
        proof {
            assert(self.instructions@ =~= preamble());
        }
        Result::Ok(())
    }

    /// Compiles a whole pattern: preamble, body, final `Match`.
    fn gen_code(&mut self, ast: &AST) -> (r: Result<(), CodeGenError>)
        requires
            old(self).wf(),
            old(self).pc == 0,
        ensures
            r is Ok ==> final(self).wf(),
            r is Ok <==> inst_count(ast@) + 5 <= usize::MAX,
            r is Ok ==> final(self).instructions@ == spec_code_of(ast@),
            r matches Err(e) ==> e == CodeGenError::PcOverFlow,
    {
        proof {
            lemma_gen_spec_len(ast@, 4);
        }
        self.gen_skip_head()?;
        self.gen_expr(ast)?;
        self.instructions.push(Instruction::Match);
        self.inc_pc()?;
        proof {
            assert(self.instructions@ =~= spec_code_of(ast@));
        }
        Result::Ok(())
    }
}

proof fn lemma_ast_size_pos(ast: AstView)
    ensures
        ast_size(ast) >= 1,
{
}

/// The size of a node is more than the sizes of its direct children; the
/// termination argument of the generator's mutual recursion.
proof fn lemma_ast_size_unary(ast: AstView)
    ensures
        ast matches AstView::Dollar(a) ==> ast_size(*a) < ast_size(ast),
        ast matches AstView::Hat(a) ==> ast_size(*a) < ast_size(ast),
        ast matches AstView::Plus(a) ==> ast_size(*a) < ast_size(ast),
        ast matches AstView::Star(a) ==> ast_size(*a) < ast_size(ast),
        ast matches AstView::Question(a) ==> ast_size(*a) < ast_size(ast),
        ast matches AstView::Or(a, b) ==> ast_size(*a) + ast_size(*b) < ast_size(ast),
        ast matches AstView::Concat(items) ==> asts_sizes(items) < ast_size(ast),
{
}

proof fn lemma_insts_count_take(items: Seq<AstView>, i: int)
    requires
        0 <= i < items.len(),
    ensures
        insts_count(items.take(i + 1)) == insts_count(items.take(i)) + inst_count(items[i]),
{
    assert(items.take(i + 1).drop_last() =~= items.take(i));
    assert(items.take(i + 1).last() == items[i]);
}

proof fn lemma_insts_count_take_le(items: Seq<AstView>, i: int)
    requires
        0 <= i < items.len(),
    ensures
        insts_count(items.take(i)) + inst_count(items[i]) <= insts_count(items),
    decreases items.len() - i,
{
    lemma_insts_count_take(items, i);
    if i + 1 < items.len() {
        lemma_insts_count_take_le(items, i + 1);
        lemma_insts_count_take(items, i + 1);
    } else {
        assert(items.take(i + 1) =~= items);
    }
}

/// Compiles a parsed pattern into its bytecode program: exactly
/// [`spec_code_of`], well formed, and a failure only on address-space
/// exhaustion, which a real machine cannot reach.
pub fn get_code(ast: &AST) -> (r: Result<Code, CodeGenError>)
    ensures
        r matches Ok(code) ==> code@ == spec_code_of(ast@) && code_with_preamble(code@),
        r is Ok <==> inst_count(ast@) + 5 <= usize::MAX,
        r matches Err(e) ==> e == CodeGenError::PcOverFlow,
{
    let mut generator = Generator::new();

    match generator.gen_code(ast) {
        Result::Ok(_) => {
            proof {
                lemma_spec_code_of_wf(ast@);
            }
            Result::Ok(Code::new(generator.instructions))
        },
        Result::Err(e) => Result::Err(e),
    }
}

} // verus!
