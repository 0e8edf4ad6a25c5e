//! The evaluator: a little virtual machine that runs a bytecode program
//! against an input character sequence.
//!
//! The reachability predicate [`machine_matches`] gives the meaning of a
//! program: whether a `Match` instruction can be reached from a given
//! configuration.  Two search strategies are implemented, a depth-first
//! backtracking search and a breadth-first queue simulation, and each is
//! proved to report exactly that predicate whenever it answers.  Because a
//! repetition whose body can match the empty input makes the search run
//! forever, every strategy counts its steps against a budget of
//! `usize::MAX`; exhausting it reports [`EvalError::StepLimit`], a resource
//! fault that no feasible execution reaches.

use crate::engine::{code_wf, code_with_preamble, Code, Instruction};
use vstd::prelude::*;

verus! {

/// An internal failure of evaluation.  For a well-formed program only
/// `StepLimit` (the step budget ran out) and `NotImplemented` (the
/// breadth-first capturing strategy does not exist) can occur; the others
/// would signal a code-generation defect.
#[derive(Debug, PartialEq)]
pub enum EvalError {
    PCOverFlow,
    SPOverFlow,
    InvalidPC,
    InvalidContext,
    AttemptNop,
    NotStarted,
    StepLimit,
    NotImplemented,
}

/// A `Match` instruction is reachable from `(pc, sp)` within `fuel` machine
/// steps.
pub open spec fn can_match(
    code: Seq<Instruction>,
    line: Seq<char>,
    pc: int,
    sp: int,
    fuel: nat,
) -> bool
    decreases fuel,
{
    if fuel == 0 {
        false
    } else if !(0 <= pc < code.len()) {
        false
    } else {
        let next = (fuel - 1) as nat;
        match code[pc] {
            Instruction::Char(c) => 0 <= sp < line.len() && line[sp] == c && can_match(
                code,
                line,
                pc + 1,
                sp + 1,
                next,
            ),
            Instruction::AnyChar => 0 <= sp < line.len() && can_match(
                code,
                line,
                pc + 1,
                sp + 1,
                next,
            ),
            Instruction::Start => can_match(code, line, pc + 1, sp, next),
            Instruction::IsHead => sp == 0 && can_match(code, line, pc + 1, sp, next),
            Instruction::IsTail => sp == line.len() && can_match(code, line, pc + 1, sp, next),
            Instruction::Match => true,
            Instruction::Jump(t) => can_match(code, line, t as int, sp, next),
            Instruction::Split(a, b) => can_match(code, line, a as int, sp, next) || can_match(
                code,
                line,
                b as int,
                sp,
                next,
            ),
            Instruction::Nop => false,
        }
    }
}

/// A `Match` instruction is reachable from `(pc, sp)`: the meaning of
/// running a program from that configuration.
pub open spec fn machine_matches(code: Seq<Instruction>, line: Seq<char>, pc: int, sp: int) -> bool {
    exists|fuel: nat| #[trigger] can_match(code, line, pc, sp, fuel)
}

/// One step of [`machine_matches`], written over the successors of a
/// configuration.
pub open spec fn mm_step(code: Seq<Instruction>, line: Seq<char>, pc: int, sp: int) -> bool {
    &&& 0 <= pc < code.len()
    &&& match code[pc] {
        Instruction::Char(c) => 0 <= sp < line.len() && line[sp] == c && machine_matches(
            code,
            line,
            pc + 1,
            sp + 1,
        ),
        Instruction::AnyChar => 0 <= sp < line.len() && machine_matches(code, line, pc + 1, sp + 1),
        Instruction::Start => machine_matches(code, line, pc + 1, sp),
        Instruction::IsHead => sp == 0 && machine_matches(code, line, pc + 1, sp),
        Instruction::IsTail => sp == line.len() && machine_matches(code, line, pc + 1, sp),
        Instruction::Match => true,
        Instruction::Jump(t) => machine_matches(code, line, t as int, sp),
        Instruction::Split(a, b) => machine_matches(code, line, a as int, sp) || machine_matches(
            code,
            line,
            b as int,
            sp,
        ),
        Instruction::Nop => false,
    }
}

/// Reachability unfolds one machine step at a time.
pub proof fn lemma_mm_unfold(code: Seq<Instruction>, line: Seq<char>, pc: int, sp: int)
    ensures
        machine_matches(code, line, pc, sp) == mm_step(code, line, pc, sp),
{
    if machine_matches(code, line, pc, sp) {
        let fuel = choose|fuel: nat| #[trigger] can_match(code, line, pc, sp, fuel);
        assert(can_match(code, line, pc, sp, fuel));
        assert(fuel > 0);
        let next = (fuel - 1) as nat;
        assert(0 <= pc < code.len());
        match code[pc] {
            Instruction::Char(_) => {
                assert(can_match(code, line, pc + 1, sp + 1, next));
            },
            Instruction::AnyChar => {
                assert(can_match(code, line, pc + 1, sp + 1, next));
            },
            Instruction::Start => {
                assert(can_match(code, line, pc + 1, sp, next));
            },
            Instruction::IsHead => {
                assert(can_match(code, line, pc + 1, sp, next));
            },
            Instruction::IsTail => {
                assert(can_match(code, line, pc + 1, sp, next));
            },
            Instruction::Match => {},
            Instruction::Jump(t) => {
                assert(can_match(code, line, t as int, sp, next));
            },
            Instruction::Split(a, b) => {
                assert(can_match(code, line, a as int, sp, next) || can_match(
                    code,
                    line,
                    b as int,
                    sp,
                    next,
                ));
            },
            Instruction::Nop => {},
        }
        assert(mm_step(code, line, pc, sp));
    }
    if mm_step(code, line, pc, sp) {
        match code[pc] {
            Instruction::Char(_) => {
                let f = choose|f: nat| #[trigger] can_match(code, line, pc + 1, sp + 1, f);
                assert(can_match(code, line, pc, sp, f + 1));
            },
            Instruction::AnyChar => {
                let f = choose|f: nat| #[trigger] can_match(code, line, pc + 1, sp + 1, f);
                assert(can_match(code, line, pc, sp, f + 1));
            },
            Instruction::Start => {
                let f = choose|f: nat| #[trigger] can_match(code, line, pc + 1, sp, f);
                assert(can_match(code, line, pc, sp, f + 1));
            },
            Instruction::IsHead => {
                let f = choose|f: nat| #[trigger] can_match(code, line, pc + 1, sp, f);
                assert(can_match(code, line, pc, sp, f + 1));
            },
            Instruction::IsTail => {
                let f = choose|f: nat| #[trigger] can_match(code, line, pc + 1, sp, f);
                assert(can_match(code, line, pc, sp, f + 1));
            },
            Instruction::Match => {
                assert(can_match(code, line, pc, sp, 1));
            },
            Instruction::Jump(t) => {
                let f = choose|f: nat| #[trigger] can_match(code, line, t as int, sp, f);
                assert(can_match(code, line, pc, sp, f + 1));
            },
            Instruction::Split(a, b) => {
                if machine_matches(code, line, a as int, sp) {
                    let f = choose|f: nat| #[trigger] can_match(code, line, a as int, sp, f);
                    assert(can_match(code, line, pc, sp, f + 1));
                } else {
                    let f = choose|f: nat| #[trigger] can_match(code, line, b as int, sp, f);
                    assert(can_match(code, line, pc, sp, f + 1));
                }
            },
            Instruction::Nop => {},
        }
        assert(machine_matches(code, line, pc, sp));
    }
}

// ------------------------------------------------------------------
// The two boolean search strategies, as step machines over a sequence of
// pending configurations: the depth-first search treats it as a stack, the
// breadth-first search as a queue.
// ------------------------------------------------------------------

/// What one step of a boolean search does: continue with new pending
/// configurations, answer, or fault.
pub enum SearchStep {
    Next(Seq<(usize, usize)>),
    Done(bool),
    Fail(EvalError),
}

/// A pending configuration can still reach a `Match`.
pub open spec fn frame_matches(code: Seq<Instruction>, line: Seq<char>, f: (usize, usize)) -> bool {
    machine_matches(code, line, f.0 as int, f.1 as int)
}

/// Some pending configuration can still reach a `Match`.
pub open spec fn frames_match(
    code: Seq<Instruction>,
    line: Seq<char>,
    frames: Seq<(usize, usize)>,
) -> bool {
    exists|i: int| 0 <= i < frames.len() && frame_matches(code, line, #[trigger] frames[i])
}

/// Every pending configuration indexes into the program and the input.
pub open spec fn frames_valid(
    code: Seq<Instruction>,
    line: Seq<char>,
    frames: Seq<(usize, usize)>,
) -> bool {
    forall|i: int|
        0 <= i < frames.len() ==> (#[trigger] frames[i]).0 < code.len() && frames[i].1
            <= line.len()
}

proof fn lemma_frames_match_push(
    code: Seq<Instruction>,
    line: Seq<char>,
    frames: Seq<(usize, usize)>,
    f: (usize, usize),
)
    ensures
        frames_match(code, line, frames.push(f)) == (frames_match(code, line, frames)
            || frame_matches(code, line, f)),
{
    let fs2 = frames.push(f);
    if frames_match(code, line, frames) {
        let i = choose|i: int|
            0 <= i < frames.len() && frame_matches(code, line, #[trigger] frames[i]);
        assert(fs2[i] == frames[i]);
        assert(frames_match(code, line, fs2));
    }
    if frame_matches(code, line, f) {
        assert(fs2[frames.len() as int] == f);
        assert(frames_match(code, line, fs2));
    }
    if frames_match(code, line, fs2) {
        let i = choose|i: int| 0 <= i < fs2.len() && frame_matches(code, line, #[trigger] fs2[i]);
        if i < frames.len() {
            assert(frames[i] == fs2[i]);
            assert(frames_match(code, line, frames));
        } else {
            assert(fs2[i] == f);
        }
    }
}

proof fn lemma_frames_match_pop(code: Seq<Instruction>, line: Seq<char>, frames: Seq<(usize, usize)>)
    requires
        frames.len() > 0,
    ensures
        frames_match(code, line, frames) == (frames_match(code, line, frames.drop_last())
            || frame_matches(code, line, frames.last())),
{
    lemma_frames_match_push(code, line, frames.drop_last(), frames.last());
    assert(frames.drop_last().push(frames.last()) =~= frames);
}

proof fn lemma_frames_match_shift(
    code: Seq<Instruction>,
    line: Seq<char>,
    frames: Seq<(usize, usize)>,
)
    requires
        frames.len() > 0,
    ensures
        frames_match(code, line, frames) == (frame_matches(code, line, frames[0]) || frames_match(
            code,
            line,
            frames.subrange(1, frames.len() as int),
        )),
{
    let rest = frames.subrange(1, frames.len() as int);
    if frame_matches(code, line, frames[0]) {
        assert(frames_match(code, line, frames));
    }
    if frames_match(code, line, rest) {
        let i = choose|i: int| 0 <= i < rest.len() && frame_matches(code, line, #[trigger] rest[i]);
        assert(frames[i + 1] == rest[i]);
        assert(frames_match(code, line, frames));
    }
    if frames_match(code, line, frames) && !frame_matches(code, line, frames[0]) {
        let i = choose|i: int|
            0 <= i < frames.len() && frame_matches(code, line, #[trigger] frames[i]);
        assert(i > 0);
        assert(rest[i - 1] == frames[i]);
        assert(frames_match(code, line, rest));
    }
}

/// One step of the depth-first (backtracking) search: take the most
/// recently pushed configuration, act on its instruction, and push its
/// continuations, the preferred branch of a `Split` on top.
pub open spec fn dfs_step(
    code: Seq<Instruction>,
    line: Seq<char>,
    stack: Seq<(usize, usize)>,
) -> SearchStep {
    if stack.len() == 0 {
        SearchStep::Done(false)
    } else {
        let pc = stack.last().0;
        let sp = stack.last().1;
        let rest = stack.drop_last();
        if !(pc < code.len()) {
            SearchStep::Fail(EvalError::InvalidPC)
        } else {
            match code[pc as int] {
                Instruction::Char(c) => if sp < line.len() && line[sp as int] == c {
                    SearchStep::Next(rest.push(((pc + 1) as usize, (sp + 1) as usize)))
                } else {
                    SearchStep::Next(rest)
                },
                Instruction::AnyChar => if sp < line.len() {
                    SearchStep::Next(rest.push(((pc + 1) as usize, (sp + 1) as usize)))
                } else {
                    SearchStep::Next(rest)
                },
                Instruction::Start => SearchStep::Next(rest.push(((pc + 1) as usize, sp))),
                Instruction::IsHead => if sp == 0 {
                    SearchStep::Next(rest.push(((pc + 1) as usize, sp)))
                } else {
                    SearchStep::Next(rest)
                },
                Instruction::IsTail => if sp == line.len() {
                    SearchStep::Next(rest.push(((pc + 1) as usize, sp)))
                } else {
                    SearchStep::Next(rest)
                },
                Instruction::Match => SearchStep::Done(true),
                Instruction::Jump(t) => SearchStep::Next(rest.push((t, sp))),
                Instruction::Split(a, b) => SearchStep::Next(rest.push((b, sp)).push((a, sp))),
                Instruction::Nop => SearchStep::Fail(EvalError::AttemptNop),
            }
        }
    }
}

/// The depth-first search run to completion, one [`dfs_step`] per unit of
/// fuel; out of fuel it reports the step budget exhausted.
pub open spec fn dfs_run(
    code: Seq<Instruction>,
    line: Seq<char>,
    stack: Seq<(usize, usize)>,
    fuel: nat,
) -> Result<bool, EvalError>
    decreases fuel,
{
    if fuel == 0 {
        Result::Err(EvalError::StepLimit)
    } else {
        match dfs_step(code, line, stack) {
            SearchStep::Next(st) => dfs_run(code, line, st, (fuel - 1) as nat),
            SearchStep::Done(b) => Result::Ok(b),
            SearchStep::Fail(e) => Result::Err(e),
        }
    }
}

/// One step of the breadth-first search: take the oldest pending
/// configuration and enqueue its continuations at the back.
pub open spec fn bfs_step(
    code: Seq<Instruction>,
    line: Seq<char>,
    queue: Seq<(usize, usize)>,
) -> SearchStep {
    if queue.len() == 0 {
        SearchStep::Done(false)
    } else {
        let pc = queue[0].0;
        let sp = queue[0].1;
        let rest = queue.subrange(1, queue.len() as int);
        if !(pc < code.len()) {
            SearchStep::Fail(EvalError::InvalidPC)
        } else {
            match code[pc as int] {
                Instruction::Char(c) => if sp < line.len() && line[sp as int] == c {
                    SearchStep::Next(rest.push(((pc + 1) as usize, (sp + 1) as usize)))
                } else {
                    SearchStep::Next(rest)
                },
                Instruction::AnyChar => if sp < line.len() {
                    SearchStep::Next(rest.push(((pc + 1) as usize, (sp + 1) as usize)))
                } else {
                    SearchStep::Next(rest)
                },
                Instruction::Start => SearchStep::Next(rest.push(((pc + 1) as usize, sp))),
                Instruction::IsHead => if sp == 0 {
                    SearchStep::Next(rest.push(((pc + 1) as usize, sp)))
                } else {
                    SearchStep::Next(rest)
                },
                Instruction::IsTail => if sp == line.len() {
                    SearchStep::Next(rest.push(((pc + 1) as usize, sp)))
                } else {
                    SearchStep::Next(rest)
                },
                Instruction::Match => SearchStep::Done(true),
                Instruction::Jump(t) => SearchStep::Next(rest.push((t, sp))),
                Instruction::Split(a, b) => SearchStep::Next(rest.push((a, sp)).push((b, sp))),
                Instruction::Nop => SearchStep::Fail(EvalError::AttemptNop),
            }
        }
    }
}

/// The breadth-first search run to completion, one [`bfs_step`] per unit of
/// fuel.
pub open spec fn bfs_run(
    code: Seq<Instruction>,
    line: Seq<char>,
    queue: Seq<(usize, usize)>,
    fuel: nat,
) -> Result<bool, EvalError>
    decreases fuel,
{
    if fuel == 0 {
        Result::Err(EvalError::StepLimit)
    } else {
        match bfs_step(code, line, queue) {
            SearchStep::Next(st) => bfs_run(code, line, st, (fuel - 1) as nat),
            SearchStep::Done(b) => Result::Ok(b),
            SearchStep::Fail(e) => Result::Err(e),
        }
    }
}

/// One depth-first step keeps "some pending configuration matches" exact,
/// answers correctly, and preserves validity; under a well-formed program
/// it never faults.
proof fn lemma_dfs_step(code: Seq<Instruction>, line: Seq<char>, stack: Seq<(usize, usize)>)
    requires
        code_wf(code),
        code.len() <= usize::MAX,
        line.len() <= usize::MAX,
        frames_valid(code, line, stack),
    ensures
        dfs_step(code, line, stack) matches SearchStep::Next(st2) ==> frames_valid(code, line, st2)
            && frames_match(code, line, st2) == frames_match(code, line, stack) && st2.len()
            <= stack.len() + 1,
        dfs_step(code, line, stack) matches SearchStep::Done(b) ==> b == frames_match(
            code,
            line,
            stack,
        ),
        !(dfs_step(code, line, stack) is Fail),
{
    if stack.len() == 0 {
        assert(!frames_match(code, line, stack));
    } else {
        let f = stack.last();
        let pc = f.0 as int;
        let sp = f.1 as int;
        let rest = stack.drop_last();
        assert(stack[stack.len() - 1] == f);
        lemma_frames_match_pop(code, line, stack);
        lemma_mm_unfold(code, line, pc, sp);
        if !(code[pc] is Match) {
            assert(pc < code.len() - 1);
        }
        match code[pc] {
            Instruction::Char(_) => {
                if sp < line.len() && line[sp] == code[pc]->Char_0 {
                    lemma_frames_match_push(
                        code,
                        line,
                        rest,
                        ((pc + 1) as usize, (sp + 1) as usize),
                    );
                } else {
                    assert(!frame_matches(code, line, f));
                }
            },
            Instruction::AnyChar => {
                if sp < line.len() {
                    lemma_frames_match_push(
                        code,
                        line,
                        rest,
                        ((pc + 1) as usize, (sp + 1) as usize),
                    );
                } else {
                    assert(!frame_matches(code, line, f));
                }
            },
            Instruction::Start => {
                lemma_frames_match_push(code, line, rest, ((pc + 1) as usize, f.1));
            },
            Instruction::IsHead => {
                if sp == 0 {
                    lemma_frames_match_push(code, line, rest, ((pc + 1) as usize, f.1));
                } else {
                    assert(!frame_matches(code, line, f));
                }
            },
            Instruction::IsTail => {
                if sp == line.len() {
                    lemma_frames_match_push(code, line, rest, ((pc + 1) as usize, f.1));
                } else {
                    assert(!frame_matches(code, line, f));
                }
            },
            Instruction::Match => {
                assert(frame_matches(code, line, f));
            },
            Instruction::Jump(t) => {
                lemma_frames_match_push(code, line, rest, (t, f.1));
            },
            Instruction::Split(a, b) => {
                lemma_frames_match_push(code, line, rest, (b, f.1));
                lemma_frames_match_push(code, line, rest.push((b, f.1)), (a, f.1));
            },
            Instruction::Nop => {},
        }
    }
}

/// One breadth-first step has the same guarantees as a depth-first step.
proof fn lemma_bfs_step(code: Seq<Instruction>, line: Seq<char>, queue: Seq<(usize, usize)>)
    requires
        code_wf(code),
        code.len() <= usize::MAX,
        line.len() <= usize::MAX,
        frames_valid(code, line, queue),
    ensures
        bfs_step(code, line, queue) matches SearchStep::Next(st2) ==> frames_valid(code, line, st2)
            && frames_match(code, line, st2) == frames_match(code, line, queue) && st2.len()
            <= queue.len() + 1,
        bfs_step(code, line, queue) matches SearchStep::Done(b) ==> b == frames_match(
            code,
            line,
            queue,
        ),
        !(bfs_step(code, line, queue) is Fail),
{
    if queue.len() == 0 {
        assert(!frames_match(code, line, queue));
    } else {
        let f = queue[0];
        let pc = f.0 as int;
        let sp = f.1 as int;
        let rest = queue.subrange(1, queue.len() as int);
        lemma_frames_match_shift(code, line, queue);
        lemma_mm_unfold(code, line, pc, sp);
        if !(code[pc] is Match) {
            assert(pc < code.len() - 1);
        }
        match code[pc] {
            Instruction::Char(_) => {
                if sp < line.len() && line[sp] == code[pc]->Char_0 {
                    lemma_frames_match_push(
                        code,
                        line,
                        rest,
                        ((pc + 1) as usize, (sp + 1) as usize),
                    );
                } else {
                    assert(!frame_matches(code, line, f));
                }
            },
            Instruction::AnyChar => {
                if sp < line.len() {
                    lemma_frames_match_push(
                        code,
                        line,
                        rest,
                        ((pc + 1) as usize, (sp + 1) as usize),
                    );
                } else {
                    assert(!frame_matches(code, line, f));
                }
            },
            Instruction::Start => {
                lemma_frames_match_push(code, line, rest, ((pc + 1) as usize, f.1));
            },
            Instruction::IsHead => {
                if sp == 0 {
                    lemma_frames_match_push(code, line, rest, ((pc + 1) as usize, f.1));
                } else {
                    assert(!frame_matches(code, line, f));
                }
            },
            Instruction::IsTail => {
                if sp == line.len() {
                    lemma_frames_match_push(code, line, rest, ((pc + 1) as usize, f.1));
                } else {
                    assert(!frame_matches(code, line, f));
                }
            },
            Instruction::Match => {
                assert(frame_matches(code, line, f));
            },
            Instruction::Jump(t) => {
                lemma_frames_match_push(code, line, rest, (t, f.1));
            },
            Instruction::Split(a, b) => {
                lemma_frames_match_push(code, line, rest, (a, f.1));
                lemma_frames_match_push(code, line, rest.push((a, f.1)), (b, f.1));
            },
            Instruction::Nop => {},
        }
    }
}

/// Whenever the depth-first search answers, the answer is exactly whether
/// some pending configuration can reach a `Match`; it never faults on a
/// well-formed program.
pub proof fn lemma_dfs_run(
    code: Seq<Instruction>,
    line: Seq<char>,
    stack: Seq<(usize, usize)>,
    fuel: nat,
)
    requires
        code_wf(code),
        code.len() <= usize::MAX,
        line.len() <= usize::MAX,
        frames_valid(code, line, stack),
    ensures
        dfs_run(code, line, stack, fuel) matches Ok(b) ==> b == frames_match(code, line, stack),
        dfs_run(code, line, stack, fuel) matches Err(e) ==> e == EvalError::StepLimit,
    decreases fuel,
{
    if fuel > 0 {
        lemma_dfs_step(code, line, stack);
        match dfs_step(code, line, stack) {
            SearchStep::Next(st2) => {
                lemma_dfs_run(code, line, st2, (fuel - 1) as nat);
            },
            SearchStep::Done(_) => {},
            SearchStep::Fail(_) => {},
        }
    }
}

/// Whenever the breadth-first search answers, the answer is exactly whether
/// some pending configuration can reach a `Match`; it never faults on a
/// well-formed program.
pub proof fn lemma_bfs_run(
    code: Seq<Instruction>,
    line: Seq<char>,
    queue: Seq<(usize, usize)>,
    fuel: nat,
)
    requires
        code_wf(code),
        code.len() <= usize::MAX,
        line.len() <= usize::MAX,
        frames_valid(code, line, queue),
    ensures
        bfs_run(code, line, queue, fuel) matches Ok(b) ==> b == frames_match(code, line, queue),
        bfs_run(code, line, queue, fuel) matches Err(e) ==> e == EvalError::StepLimit,
    decreases fuel,
{
    if fuel > 0 {
        lemma_bfs_step(code, line, queue);
        match bfs_step(code, line, queue) {
            SearchStep::Next(st2) => {
                lemma_bfs_run(code, line, st2, (fuel - 1) as nat);
            },
            SearchStep::Done(_) => {},
            SearchStep::Fail(_) => {},
        }
    }
}

/// Holds when running the depth-first search from `st` with `fuel` steps
/// left ends as the whole run from `init` with the full budget does: the
/// loop invariant of [`eval_depth`].  Kept opaque so that the large step
/// formula does not burden every proof step.
#[verifier::opaque]
pub open spec fn dfs_pinned(
    code: Seq<Instruction>,
    line: Seq<char>,
    init: Seq<(usize, usize)>,
    st: Seq<(usize, usize)>,
    fuel: nat,
) -> bool {
    dfs_run(code, line, st, fuel) == dfs_run(code, line, init, usize::MAX as nat)
}

proof fn lemma_dfs_pinned_init(code: Seq<Instruction>, line: Seq<char>, init: Seq<(usize, usize)>)
    ensures
        dfs_pinned(code, line, init, init, usize::MAX as nat),
{
    reveal(dfs_pinned);
}

proof fn lemma_dfs_pinned_next(
    code: Seq<Instruction>,
    line: Seq<char>,
    init: Seq<(usize, usize)>,
    st: Seq<(usize, usize)>,
    st2: Seq<(usize, usize)>,
    fuel: nat,
)
    requires
        fuel > 0,
        dfs_pinned(code, line, init, st, fuel),
        dfs_step(code, line, st) == SearchStep::Next(st2),
    ensures
        dfs_pinned(code, line, init, st2, (fuel - 1) as nat),
{
    reveal(dfs_pinned);
}

proof fn lemma_dfs_pinned_done(
    code: Seq<Instruction>,
    line: Seq<char>,
    init: Seq<(usize, usize)>,
    st: Seq<(usize, usize)>,
    fuel: nat,
    b: bool,
)
    requires
        fuel > 0,
        dfs_pinned(code, line, init, st, fuel),
        dfs_step(code, line, st) == SearchStep::Done(b),
    ensures
        dfs_run(code, line, init, usize::MAX as nat) == Result::<bool, EvalError>::Ok(b),
{
    reveal(dfs_pinned);
}

proof fn lemma_dfs_pinned_limit(
    code: Seq<Instruction>,
    line: Seq<char>,
    init: Seq<(usize, usize)>,
    st: Seq<(usize, usize)>,
)
    requires
        dfs_pinned(code, line, init, st, 0),
    ensures
        dfs_run(code, line, init, usize::MAX as nat) == Result::<bool, EvalError>::Err(
            EvalError::StepLimit,
        ),
{
    reveal(dfs_pinned);
}

/// The breadth-first counterpart of [`dfs_pinned`].
#[verifier::opaque]
pub open spec fn bfs_pinned(
    code: Seq<Instruction>,
    line: Seq<char>,
    init: Seq<(usize, usize)>,
    st: Seq<(usize, usize)>,
    fuel: nat,
) -> bool {
    bfs_run(code, line, st, fuel) == bfs_run(code, line, init, usize::MAX as nat)
}

proof fn lemma_bfs_pinned_init(code: Seq<Instruction>, line: Seq<char>, init: Seq<(usize, usize)>)
    ensures
        bfs_pinned(code, line, init, init, usize::MAX as nat),
{
    reveal(bfs_pinned);
}

proof fn lemma_bfs_pinned_next(
    code: Seq<Instruction>,
    line: Seq<char>,
    init: Seq<(usize, usize)>,
    st: Seq<(usize, usize)>,
    st2: Seq<(usize, usize)>,
    fuel: nat,
)
    requires
        fuel > 0,
        bfs_pinned(code, line, init, st, fuel),
        bfs_step(code, line, st) == SearchStep::Next(st2),
    ensures
        bfs_pinned(code, line, init, st2, (fuel - 1) as nat),
{
    reveal(bfs_pinned);
}

proof fn lemma_bfs_pinned_done(
    code: Seq<Instruction>,
    line: Seq<char>,
    init: Seq<(usize, usize)>,
    st: Seq<(usize, usize)>,
    fuel: nat,
    b: bool,
)
    requires
        fuel > 0,
        bfs_pinned(code, line, init, st, fuel),
        bfs_step(code, line, st) == SearchStep::Done(b),
    ensures
        bfs_run(code, line, init, usize::MAX as nat) == Result::<bool, EvalError>::Ok(b),
{
    reveal(bfs_pinned);
}

proof fn lemma_bfs_pinned_limit(
    code: Seq<Instruction>,
    line: Seq<char>,
    init: Seq<(usize, usize)>,
    st: Seq<(usize, usize)>,
)
    requires
        bfs_pinned(code, line, init, st, 0),
    ensures
        bfs_run(code, line, init, usize::MAX as nat) == Result::<bool, EvalError>::Err(
            EvalError::StepLimit,
        ),
{
    reveal(bfs_pinned);
}

/// A single starting configuration matches exactly when the machine does.
pub proof fn lemma_frames_match_single(
    code: Seq<Instruction>,
    line: Seq<char>,
    pc: usize,
    sp: usize,
)
    ensures
        frames_match(code, line, seq![(pc, sp)]) == machine_matches(
            code,
            line,
            pc as int,
            sp as int,
        ),
{
    let frames = seq![(pc, sp)];
    if machine_matches(code, line, pc as int, sp as int) {
        assert(frames[0] == (pc, sp));
        assert(frames_match(code, line, frames));
    }
}

// ------------------------------------------------------------------
// The implementation of the two boolean strategies.
// ------------------------------------------------------------------

/// What one implementation step did: went on, answered, or faulted.
enum StepOutcome {
    Continued,
    Finished(bool),
    Faulted(EvalError),
}

/// Performs one [`dfs_step`] on the explicit backtracking stack.
fn dfs_step_exec(inst: &[Instruction], line: &[char], stack: &mut Vec<(usize, usize)>) -> (r:
    StepOutcome)
    requires
        frames_valid(inst@, line@, old(stack)@),
    ensures
        match r {
            StepOutcome::Continued => dfs_step(inst@, line@, old(stack)@) == SearchStep::Next(
                final(stack)@,
            ),
            StepOutcome::Finished(b) => dfs_step(inst@, line@, old(stack)@) == SearchStep::Done(b),
            StepOutcome::Faulted(e) => dfs_step(inst@, line@, old(stack)@) == SearchStep::Fail(e),
        },
{
    match stack.pop() {
        Option::None => StepOutcome::Finished(false),
        Option::Some((pc, sp)) => {
            proof {
                assert(old(stack)@[old(stack)@.len() - 1] == (pc, sp));
            }
            if pc >= inst.len() {
                return StepOutcome::Faulted(EvalError::InvalidPC);
            }
            let ins = inst[pc];
            match ins {
                Instruction::Char(c) => {
                    if sp < line.len() && line[sp] == c {
                        let npc = match pc.checked_add(1) {
                            Option::Some(v) => v,
                            Option::None => {
                                return StepOutcome::Faulted(EvalError::PCOverFlow);
                            },
                        };
                        let nsp = match sp.checked_add(1) {
                            Option::Some(v) => v,
                            Option::None => {
                                return StepOutcome::Faulted(EvalError::SPOverFlow);
                            },
                        };
                        stack.push((npc, nsp));
                    }
                    StepOutcome::Continued
                },
                Instruction::AnyChar => {
                    if sp < line.len() {
                        let npc = match pc.checked_add(1) {
                            Option::Some(v) => v,
                            Option::None => {
                                return StepOutcome::Faulted(EvalError::PCOverFlow);
                            },
                        };
                        let nsp = match sp.checked_add(1) {
                            Option::Some(v) => v,
                            Option::None => {
                                return StepOutcome::Faulted(EvalError::SPOverFlow);
                            },
                        };
                        stack.push((npc, nsp));
                    }
                    StepOutcome::Continued
                },
                Instruction::Start => {
                    let npc = match pc.checked_add(1) {
                        Option::Some(v) => v,
                        Option::None => {
                            return StepOutcome::Faulted(EvalError::PCOverFlow);
                        },
                    };
                    stack.push((npc, sp));
                    StepOutcome::Continued
                },
                Instruction::IsHead => {
                    if sp == 0 {
                        let npc = match pc.checked_add(1) {
                            Option::Some(v) => v,
                            Option::None => {
                                return StepOutcome::Faulted(EvalError::PCOverFlow);
                            },
                        };
                        stack.push((npc, sp));
                    }
                    StepOutcome::Continued
                },
                Instruction::IsTail => {
                    if sp == line.len() {
                        let npc = match pc.checked_add(1) {
                            Option::Some(v) => v,
                            Option::None => {
                                return StepOutcome::Faulted(EvalError::PCOverFlow);
                            },
                        };
                        stack.push((npc, sp));
                    }
                    StepOutcome::Continued
                },
                Instruction::Match => StepOutcome::Finished(true),
                Instruction::Jump(t) => {
                    stack.push((t, sp));
                    StepOutcome::Continued
                },
                Instruction::Split(a, b) => {
                    stack.push((b, sp));
                    stack.push((a, sp));
                    StepOutcome::Continued
                },
                Instruction::Nop => StepOutcome::Faulted(EvalError::AttemptNop),
            }
        },
    }
}

/// The depth-first (backtracking) strategy: commit to the preferred branch
/// of every `Split` and only on failure of that whole attempt try the
/// other, via an explicit stack of saved alternatives.
fn eval_depth(inst: &[Instruction], line: &[char], pc: usize, sp: usize) -> (r: Result<
    bool,
    EvalError,
>)
    requires
        code_wf(inst@),
        pc < inst@.len(),
        sp <= line@.len(),
    ensures
        r == dfs_run(inst@, line@, seq![(pc, sp)], usize::MAX as nat),
        r matches Ok(b) ==> b == machine_matches(inst@, line@, pc as int, sp as int),
        r matches Err(e) ==> e == EvalError::StepLimit,
{
    let n = inst.len();
    let m = line.len();
    let mut stack: Vec<(usize, usize)> = Vec::new();
    stack.push((pc, sp));
    let ghost init = seq![(pc, sp)];
    let mut fuel: usize = usize::MAX;
    proof {
        assert(stack@ =~= init);
        lemma_dfs_pinned_init(inst@, line@, init);
        lemma_dfs_run(inst@, line@, init, usize::MAX as nat);
        lemma_frames_match_single(inst@, line@, pc, sp);
        assert(frames_valid(inst@, line@, stack@));
    }
    loop
        invariant
            code_wf(inst@),
            inst@.len() == n,
            line@.len() == m,
            frames_valid(inst@, line@, stack@),
            init == seq![(pc, sp)],
            dfs_pinned(inst@, line@, init, stack@, fuel as nat),
            dfs_run(inst@, line@, init, usize::MAX as nat) matches Ok(b) ==> b == machine_matches(
                inst@,
                line@,
                pc as int,
                sp as int,
            ),
            dfs_run(inst@, line@, init, usize::MAX as nat) matches Err(e) ==> e
                == EvalError::StepLimit,
        decreases fuel,
    {
        if fuel == 0 {
            proof {
                lemma_dfs_pinned_limit(inst@, line@, init, stack@);
            }
            return Result::Err(EvalError::StepLimit);
        }
        let ghost pre = stack@;
        match dfs_step_exec(inst, line, &mut stack) {
            StepOutcome::Continued => {
                proof {
                    lemma_dfs_step(inst@, line@, pre);
                    lemma_dfs_pinned_next(inst@, line@, init, pre, stack@, fuel as nat);
                }
                fuel = fuel - 1;
            },
            StepOutcome::Finished(b) => {
                proof {
                    lemma_dfs_pinned_done(inst@, line@, init, pre, fuel as nat, b);
                }
                return Result::Ok(b);
            },
            StepOutcome::Faulted(e) => {
                proof {
                    lemma_dfs_step(inst@, line@, pre);
                }
                return Result::Err(e);
            },
        }
    }
}

/// Performs one [`bfs_step`] on the work queue.
fn bfs_step_exec(
    inst: &[Instruction],
    line: &[char],
    queue: &mut std::collections::VecDeque<(usize, usize)>,
) -> (r: StepOutcome)
    requires
        frames_valid(inst@, line@, old(queue)@),
    ensures
        match r {
            StepOutcome::Continued => bfs_step(inst@, line@, old(queue)@) == SearchStep::Next(
                final(queue)@,
            ),
            StepOutcome::Finished(b) => bfs_step(inst@, line@, old(queue)@) == SearchStep::Done(b),
            StepOutcome::Faulted(e) => bfs_step(inst@, line@, old(queue)@) == SearchStep::Fail(e),
        },
{
    match queue.pop_front() {
        Option::None => StepOutcome::Finished(false),
        Option::Some((pc, sp)) => {
            proof {
                assert(old(queue)@[0] == (pc, sp));
            }
            if pc >= inst.len() {
                return StepOutcome::Faulted(EvalError::InvalidPC);
            }
            let ins = inst[pc];
            match ins {
                Instruction::Char(c) => {
                    if sp < line.len() && line[sp] == c {
                        let npc = match pc.checked_add(1) {
                            Option::Some(v) => v,
                            Option::None => {
                                return StepOutcome::Faulted(EvalError::PCOverFlow);
                            },
                        };
                        let nsp = match sp.checked_add(1) {
                            Option::Some(v) => v,
                            Option::None => {
                                return StepOutcome::Faulted(EvalError::SPOverFlow);
                            },
                        };
                        queue.push_back((npc, nsp));
                    }
                    StepOutcome::Continued
                },
                Instruction::AnyChar => {
                    if sp < line.len() {
                        let npc = match pc.checked_add(1) {
                            Option::Some(v) => v,
                            Option::None => {
                                return StepOutcome::Faulted(EvalError::PCOverFlow);
                            },
                        };
                        let nsp = match sp.checked_add(1) {
                            Option::Some(v) => v,
                            Option::None => {
                                return StepOutcome::Faulted(EvalError::SPOverFlow);
                            },
                        };
                        queue.push_back((npc, nsp));
                    }
                    StepOutcome::Continued
                },
                Instruction::Start => {
                    let npc = match pc.checked_add(1) {
                        Option::Some(v) => v,
                        Option::None => {
                            return StepOutcome::Faulted(EvalError::PCOverFlow);
                        },
                    };
                    queue.push_back((npc, sp));
                    StepOutcome::Continued
                },
                Instruction::IsHead => {
                    if sp == 0 {
                        let npc = match pc.checked_add(1) {
                            Option::Some(v) => v,
                            Option::None => {
                                return StepOutcome::Faulted(EvalError::PCOverFlow);
                            },
                        };
                        queue.push_back((npc, sp));
                    }
                    StepOutcome::Continued
                },
                Instruction::IsTail => {
                    if sp == line.len() {
                        let npc = match pc.checked_add(1) {
                            Option::Some(v) => v,
                            Option::None => {
                                return StepOutcome::Faulted(EvalError::PCOverFlow);
                            },
                        };
                        queue.push_back((npc, sp));
                    }
                    StepOutcome::Continued
                },
                Instruction::Match => StepOutcome::Finished(true),
                Instruction::Jump(t) => {
                    queue.push_back((t, sp));
                    StepOutcome::Continued
                },
                Instruction::Split(a, b) => {
                    queue.push_back((a, sp));
                    queue.push_back((b, sp));
                    StepOutcome::Continued
                },
                Instruction::Nop => StepOutcome::Faulted(EvalError::AttemptNop),
            }
        },
    }
}

/// The breadth-first (width) strategy: advance all live branches one step
/// at a time through a first-in-first-out work queue seeded with the
/// starting configuration.
fn eval_width(inst: &[Instruction], line: &[char]) -> (r: Result<bool, EvalError>)
    requires
        code_wf(inst@),
    ensures
        r == bfs_run(inst@, line@, seq![(0usize, 0usize)], usize::MAX as nat),
        r matches Ok(b) ==> b == machine_matches(inst@, line@, 0, 0),
        r matches Err(e) ==> e == EvalError::StepLimit,
{
    let n = inst.len();
    let m = line.len();
    let mut queue: std::collections::VecDeque<(usize, usize)> =
        std::collections::VecDeque::new();
    queue.push_back((0, 0));
    let ghost init = seq![(0usize, 0usize)];
    let mut fuel: usize = usize::MAX;
    proof {
        assert(queue@ =~= init);
        lemma_bfs_pinned_init(inst@, line@, init);
        lemma_bfs_run(inst@, line@, init, usize::MAX as nat);
        lemma_frames_match_single(inst@, line@, 0, 0);
        assert(frames_valid(inst@, line@, queue@));
    }
    loop
        invariant
            code_wf(inst@),
            inst@.len() == n,
            line@.len() == m,
            frames_valid(inst@, line@, queue@),
            init == seq![(0usize, 0usize)],
            bfs_pinned(inst@, line@, init, queue@, fuel as nat),
            bfs_run(inst@, line@, init, usize::MAX as nat) matches Ok(b) ==> b == machine_matches(
                inst@,
                line@,
                0,
                0,
            ),
            bfs_run(inst@, line@, init, usize::MAX as nat) matches Err(e) ==> e
                == EvalError::StepLimit,
        decreases fuel,
    {
        if fuel == 0 {
            proof {
                lemma_bfs_pinned_limit(inst@, line@, init, queue@);
            }
            return Result::Err(EvalError::StepLimit);
        }
        let ghost pre = queue@;
        match bfs_step_exec(inst, line, &mut queue) {
            StepOutcome::Continued => {
                proof {
                    lemma_bfs_step(inst@, line@, pre);
                    lemma_bfs_pinned_next(inst@, line@, init, pre, queue@, fuel as nat);
                }
                fuel = fuel - 1;
            },
            StepOutcome::Finished(b) => {
                proof {
                    lemma_bfs_pinned_done(inst@, line@, init, pre, fuel as nat, b);
                }
                return Result::Ok(b);
            },
            StepOutcome::Faulted(e) => {
                proof {
                    lemma_bfs_step(inst@, line@, pre);
                }
                return Result::Err(e);
            },
        }
    }
}

// ------------------------------------------------------------------
// The capturing depth-first strategy.  At a `Split` both branches are
// evaluated to completion and the longer matched span wins, so the search
// is a stack of tasks: pending configurations, and `Combine` markers that
// join the two most recent sub-results.
// ------------------------------------------------------------------

/// One unit of pending capture work: run a configuration, carrying the
/// optional match-start mark, or combine the two most recent sub-results.
#[derive(Clone, Copy)]
pub enum CapTask {
    Run(usize, usize, Option<usize>),
    Combine,
}

/// What one step of the capturing search does.
pub enum CapStep {
    Next(Seq<CapTask>, Seq<Option<(usize, usize)>>),
    Done(Option<(usize, usize)>),
    Fail(EvalError),
}

/// Of two optional spans, the longer one; the first wins ties.
pub open spec fn join_spans(a: Option<(usize, usize)>, b: Option<(usize, usize)>) -> Option<
    (usize, usize),
> {
    match a {
        Option::None => b,
        Option::Some(x) => match b {
            Option::None => a,
            Option::Some(y) => if x.1 - x.0 >= y.1 - y.0 {
                a
            } else {
                b
            },
        },
    }
}

/// One step of the capturing search: work through the most recent task.
pub open spec fn cap_step(
    code: Seq<Instruction>,
    line: Seq<char>,
    work: Seq<CapTask>,
    results: Seq<Option<(usize, usize)>>,
) -> CapStep {
    if work.len() == 0 {
        if results.len() == 1 {
            CapStep::Done(results[0])
        } else {
            CapStep::Fail(EvalError::InvalidContext)
        }
    } else {
        let rest = work.drop_last();
        match work.last() {
            CapTask::Combine => {
                if results.len() < 2 {
                    CapStep::Fail(EvalError::InvalidContext)
                } else {
                    let b = results.last();
                    let a = results[results.len() - 2];
                    CapStep::Next(
                        rest,
                        results.drop_last().drop_last().push(join_spans(a, b)),
                    )
                }
            },
            CapTask::Run(pc, sp, ssp) => {
                if !(pc < code.len()) {
                    CapStep::Fail(EvalError::InvalidPC)
                } else {
                    match code[pc as int] {
                        Instruction::Char(c) => if sp < line.len() && line[sp as int] == c {
                            CapStep::Next(
                                rest.push(CapTask::Run((pc + 1) as usize, (sp + 1) as usize, ssp)),
                                results,
                            )
                        } else {
                            CapStep::Next(rest, results.push(Option::None))
                        },
                        Instruction::AnyChar => if sp < line.len() {
                            CapStep::Next(
                                rest.push(CapTask::Run((pc + 1) as usize, (sp + 1) as usize, ssp)),
                                results,
                            )
                        } else {
                            CapStep::Next(rest, results.push(Option::None))
                        },
                        Instruction::Start => CapStep::Next(
                            rest.push(CapTask::Run((pc + 1) as usize, sp, Option::Some(sp))),
                            results,
                        ),
                        Instruction::IsHead => if sp == 0 {
                            CapStep::Next(
                                rest.push(CapTask::Run((pc + 1) as usize, sp, ssp)),
                                results,
                            )
                        } else {
                            CapStep::Next(rest, results.push(Option::None))
                        },
                        Instruction::IsTail => if sp == line.len() {
                            CapStep::Next(
                                rest.push(CapTask::Run((pc + 1) as usize, sp, ssp)),
                                results,
                            )
                        } else {
                            CapStep::Next(rest, results.push(Option::None))
                        },
                        Instruction::Match => match ssp {
                            Option::Some(s) => CapStep::Next(
                                rest,
                                results.push(Option::Some((s, sp))),
                            ),
                            Option::None => CapStep::Fail(EvalError::NotStarted),
                        },
                        Instruction::Jump(t) => CapStep::Next(
                            rest.push(CapTask::Run(t, sp, ssp)),
                            results,
                        ),
                        Instruction::Split(a, b) => CapStep::Next(
                            rest.push(CapTask::Combine).push(CapTask::Run(b, sp, ssp)).push(
                                CapTask::Run(a, sp, ssp),
                            ),
                            results,
                        ),
                        Instruction::Nop => CapStep::Fail(EvalError::AttemptNop),
                    }
                }
            },
        }
    }
}

/// The capturing search run to completion, one [`cap_step`] per unit of
/// fuel.
pub open spec fn cap_run(
    code: Seq<Instruction>,
    line: Seq<char>,
    work: Seq<CapTask>,
    results: Seq<Option<(usize, usize)>>,
    fuel: nat,
) -> Result<Option<(usize, usize)>, EvalError>
    decreases fuel,
{
    if fuel == 0 {
        Result::Err(EvalError::StepLimit)
    } else {
        match cap_step(code, line, work, results) {
            CapStep::Next(w2, r2) => cap_run(code, line, w2, r2, (fuel - 1) as nat),
            CapStep::Done(v) => Result::Ok(v),
            CapStep::Fail(e) => Result::Err(e),
        }
    }
}

/// A pending task can still reach a `Match`.
pub open spec fn task_matches(code: Seq<Instruction>, line: Seq<char>, t: CapTask) -> bool {
    match t {
        CapTask::Run(pc, sp, _) => machine_matches(code, line, pc as int, sp as int),
        CapTask::Combine => false,
    }
}

/// Some pending task can still reach a `Match`.
pub open spec fn tasks_found(code: Seq<Instruction>, line: Seq<char>, work: Seq<CapTask>) -> bool {
    exists|i: int| 0 <= i < work.len() && task_matches(code, line, #[trigger] work[i])
}

/// Some completed sub-result found a span.
pub open spec fn results_found(results: Seq<Option<(usize, usize)>>) -> bool {
    exists|j: int| 0 <= j < results.len() && (#[trigger] results[j]) is Some
}

/// A span was found, or can still be found: the invariant that ties the
/// capturing search to boolean reachability.
pub open spec fn cap_found(
    code: Seq<Instruction>,
    line: Seq<char>,
    work: Seq<CapTask>,
    results: Seq<Option<(usize, usize)>>,
) -> bool {
    tasks_found(code, line, work) || results_found(results)
}

/// A pending task indexes into the program and the input, its mark does
/// not lie ahead of the string pointer, and an unmarked task is still
/// inside the preamble.
pub open spec fn task_valid(code: Seq<Instruction>, line: Seq<char>, t: CapTask) -> bool {
    match t {
        CapTask::Combine => true,
        CapTask::Run(pc, sp, ssp) => pc < code.len() && sp <= line.len() && match ssp {
            Option::Some(s) => s <= sp,
            Option::None => pc <= 3,
        },
    }
}

pub open spec fn tasks_valid(code: Seq<Instruction>, line: Seq<char>, work: Seq<CapTask>) -> bool {
    forall|i: int| 0 <= i < work.len() ==> task_valid(code, line, #[trigger] work[i])
}

/// Every found span lies inside the input, start before end.
pub open spec fn results_valid(line: Seq<char>, results: Seq<Option<(usize, usize)>>) -> bool {
    forall|j: int|
        0 <= j < results.len() ==> match #[trigger] results[j] {
            Option::Some(p) => p.0 <= p.1 <= line.len(),
            Option::None => true,
        }
}

/// Working through the tasks from the most recent down, `Combine` always
/// finds its two sub-results, and exactly one result remains at the end.
pub open spec fn cap_balanced(work: Seq<CapTask>, nres: int) -> bool
    decreases work.len(),
{
    if work.len() == 0 {
        nres == 1
    } else {
        match work.last() {
            CapTask::Run(_, _, _) => cap_balanced(work.drop_last(), nres + 1),
            CapTask::Combine => nres >= 2 && cap_balanced(work.drop_last(), nres - 1),
        }
    }
}

proof fn lemma_cap_balanced_push_run(work: Seq<CapTask>, nres: int, t: CapTask)
    requires
        t is Run,
    ensures
        cap_balanced(work.push(t), nres) == cap_balanced(work, nres + 1),
{
    assert(work.push(t).drop_last() =~= work);
    assert(work.push(t).last() == t);
}

proof fn lemma_cap_balanced_push_combine(work: Seq<CapTask>, nres: int)
    ensures
        cap_balanced(work.push(CapTask::Combine), nres) == (nres >= 2 && cap_balanced(
            work,
            nres - 1,
        )),
{
    assert(work.push(CapTask::Combine).drop_last() =~= work);
    assert(work.push(CapTask::Combine).last() == CapTask::Combine);
}

proof fn lemma_tasks_found_push(code: Seq<Instruction>, line: Seq<char>, work: Seq<CapTask>, t: CapTask)
    ensures
        tasks_found(code, line, work.push(t)) == (tasks_found(code, line, work) || task_matches(
            code,
            line,
            t,
        )),
{
    let w2 = work.push(t);
    if tasks_found(code, line, work) {
        let i = choose|i: int| 0 <= i < work.len() && task_matches(code, line, #[trigger] work[i]);
        assert(w2[i] == work[i]);
        assert(tasks_found(code, line, w2));
    }
    if task_matches(code, line, t) {
        assert(w2[work.len() as int] == t);
        assert(tasks_found(code, line, w2));
    }
    if tasks_found(code, line, w2) {
        let i = choose|i: int| 0 <= i < w2.len() && task_matches(code, line, #[trigger] w2[i]);
        if i < work.len() {
            assert(work[i] == w2[i]);
            assert(tasks_found(code, line, work));
        } else {
            assert(w2[i] == t);
        }
    }
}

proof fn lemma_tasks_found_pop(code: Seq<Instruction>, line: Seq<char>, work: Seq<CapTask>)
    requires
        work.len() > 0,
    ensures
        tasks_found(code, line, work) == (tasks_found(code, line, work.drop_last())
            || task_matches(code, line, work.last())),
{
    lemma_tasks_found_push(code, line, work.drop_last(), work.last());
    assert(work.drop_last().push(work.last()) =~= work);
}

proof fn lemma_results_found_push(results: Seq<Option<(usize, usize)>>, v: Option<(usize, usize)>)
    ensures
        results_found(results.push(v)) == (results_found(results) || v is Some),
{
    let r2 = results.push(v);
    if results_found(results) {
        let j = choose|j: int| 0 <= j < results.len() && (#[trigger] results[j]) is Some;
        assert(r2[j] == results[j]);
        assert(results_found(r2));
    }
    if v is Some {
        assert(r2[results.len() as int] == v);
        assert(results_found(r2));
    }
    if results_found(r2) {
        let j = choose|j: int| 0 <= j < r2.len() && (#[trigger] r2[j]) is Some;
        if j < results.len() {
            assert(results[j] == r2[j]);
            assert(results_found(results));
        } else {
            assert(r2[j] == v);
        }
    }
}

proof fn lemma_results_found_pop(results: Seq<Option<(usize, usize)>>)
    requires
        results.len() > 0,
    ensures
        results_found(results) == (results_found(results.drop_last()) || results.last() is Some),
{
    lemma_results_found_push(results.drop_last(), results.last());
    assert(results.drop_last().push(results.last()) =~= results);
}

/// One capturing step keeps "a span was or can be found" exact, preserves
/// validity and balance, answers correctly, and never faults on a program
/// with the generator's preamble.
proof fn lemma_cap_step(
    code: Seq<Instruction>,
    line: Seq<char>,
    work: Seq<CapTask>,
    results: Seq<Option<(usize, usize)>>,
)
    requires
        code_with_preamble(code),
        code.len() <= usize::MAX,
        line.len() <= usize::MAX,
        tasks_valid(code, line, work),
        results_valid(line, results),
        cap_balanced(work, results.len() as int),
    ensures
        cap_step(code, line, work, results) matches CapStep::Next(w2, r2) ==> tasks_valid(
            code,
            line,
            w2,
        ) && results_valid(line, r2) && cap_balanced(w2, r2.len() as int) && cap_found(
            code,
            line,
            w2,
            r2,
        ) == cap_found(code, line, work, results),
        cap_step(code, line, work, results) matches CapStep::Done(v) ==> ((v is Some) == cap_found(
            code,
            line,
            work,
            results,
        )) && (v matches Some(p) ==> p.0 <= p.1 <= line.len()),
        !(cap_step(code, line, work, results) is Fail),
{
    if work.len() == 0 {
        assert(results.len() == 1);
        assert(!tasks_found(code, line, work));
        lemma_results_found_pop(results);
        assert(results.drop_last() =~= Seq::<Option<(usize, usize)>>::empty());
        assert(!results_found(results.drop_last()));
        assert(results.last() == results[0]);
    } else {
        let rest = work.drop_last();
        assert(work[work.len() - 1] == work.last());
        lemma_tasks_found_pop(code, line, work);
        match work.last() {
            CapTask::Combine => {
                assert(results.len() >= 2);
                let b = results.last();
                let a = results[results.len() - 2];
                let shrunk = results.drop_last().drop_last();
                lemma_results_found_pop(results);
                lemma_results_found_pop(results.drop_last());
                assert(results.drop_last().last() == results.drop_last()[results.len() - 2]);
                assert(results.drop_last()[results.len() - 2] == results[results.len() - 2]);
                lemma_results_found_push(shrunk, join_spans(a, b));
                assert(results[results.len() - 2] == a);
            },
            CapTask::Run(pcu, spu, ssp) => {
                let pc = pcu as int;
                let sp = spu as int;
                assert(pcu < code.len());
                lemma_mm_unfold(code, line, pc, sp);
                if !(code[pc] is Match) {
                    assert(pc < code.len() - 1);
                }
                match code[pc] {
                    Instruction::Char(_) => {
                        if sp < line.len() && line[sp] == code[pc]->Char_0 {
                            lemma_tasks_found_push(
                                code,
                                line,
                                rest,
                                CapTask::Run((pcu + 1) as usize, (spu + 1) as usize, ssp),
                            );
                            lemma_cap_balanced_push_run(
                                rest,
                                results.len() as int,
                                CapTask::Run((pcu + 1) as usize, (spu + 1) as usize, ssp),
                            );
                        } else {
                            assert(!task_matches(code, line, work.last()));
                            lemma_results_found_push(results, Option::None);
                        }
                    },
                    Instruction::AnyChar => {
                        if sp < line.len() {
                            lemma_tasks_found_push(
                                code,
                                line,
                                rest,
                                CapTask::Run((pcu + 1) as usize, (spu + 1) as usize, ssp),
                            );
                            lemma_cap_balanced_push_run(
                                rest,
                                results.len() as int,
                                CapTask::Run((pcu + 1) as usize, (spu + 1) as usize, ssp),
                            );
                        } else {
                            assert(!task_matches(code, line, work.last()));
                            lemma_results_found_push(results, Option::None);
                        }
                    },
                    Instruction::Start => {
                        lemma_tasks_found_push(
                            code,
                            line,
                            rest,
                            CapTask::Run((pcu + 1) as usize, spu, Option::Some(spu)),
                        );
                        lemma_cap_balanced_push_run(
                            rest,
                            results.len() as int,
                            CapTask::Run((pcu + 1) as usize, spu, Option::Some(spu)),
                        );
                    },
                    Instruction::IsHead => {
                        if sp == 0 {
                            lemma_tasks_found_push(
                                code,
                                line,
                                rest,
                                CapTask::Run((pcu + 1) as usize, spu, ssp),
                            );
                            lemma_cap_balanced_push_run(
                                rest,
                                results.len() as int,
                                CapTask::Run((pcu + 1) as usize, spu, ssp),
                            );
                        } else {
                            assert(!task_matches(code, line, work.last()));
                            lemma_results_found_push(results, Option::None);
                        }
                    },
                    Instruction::IsTail => {
                        if sp == line.len() {
                            lemma_tasks_found_push(
                                code,
                                line,
                                rest,
                                CapTask::Run((pcu + 1) as usize, spu, ssp),
                            );
                            lemma_cap_balanced_push_run(
                                rest,
                                results.len() as int,
                                CapTask::Run((pcu + 1) as usize, spu, ssp),
                            );
                        } else {
                            assert(!task_matches(code, line, work.last()));
                            lemma_results_found_push(results, Option::None);
                        }
                    },
                    Instruction::Match => {
                        // Inside the preamble there is no `Match`, so the
                        // mark has been set.
                        assert(ssp is Some);
                        assert(task_matches(code, line, work.last()));
                        lemma_results_found_push(
                            results,
                            Option::Some((ssp->0, spu)),
                        );
                    },
                    Instruction::Jump(t) => {
                        lemma_tasks_found_push(code, line, rest, CapTask::Run(t, spu, ssp));
                        lemma_cap_balanced_push_run(
                            rest,
                            results.len() as int,
                            CapTask::Run(t, spu, ssp),
                        );
                    },
                    Instruction::Split(a, b) => {
                        // An unmarked task sits in the preamble, whose only
                        // split is the one at address 0.
                        lemma_tasks_found_push(code, line, rest, CapTask::Combine);
                        lemma_tasks_found_push(
                            code,
                            line,
                            rest.push(CapTask::Combine),
                            CapTask::Run(b, spu, ssp),
                        );
                        lemma_tasks_found_push(
                            code,
                            line,
                            rest.push(CapTask::Combine).push(CapTask::Run(b, spu, ssp)),
                            CapTask::Run(a, spu, ssp),
                        );
                        lemma_cap_balanced_push_combine(rest, results.len() as int + 2);
                        lemma_cap_balanced_push_run(
                            rest.push(CapTask::Combine),
                            results.len() as int + 1,
                            CapTask::Run(b, spu, ssp),
                        );
                        lemma_cap_balanced_push_run(
                            rest.push(CapTask::Combine).push(CapTask::Run(b, spu, ssp)),
                            results.len() as int,
                            CapTask::Run(a, spu, ssp),
                        );
                    },
                    Instruction::Nop => {},
                }
            },
        }
    }
}

/// Whenever the capturing search answers, it finds a span exactly when the
/// machine matches, and the span lies inside the input; it never faults on
/// a program with the generator's preamble.
pub proof fn lemma_cap_run(
    code: Seq<Instruction>,
    line: Seq<char>,
    work: Seq<CapTask>,
    results: Seq<Option<(usize, usize)>>,
    fuel: nat,
)
    requires
        code_with_preamble(code),
        code.len() <= usize::MAX,
        line.len() <= usize::MAX,
        tasks_valid(code, line, work),
        results_valid(line, results),
        cap_balanced(work, results.len() as int),
    ensures
        cap_run(code, line, work, results, fuel) matches Ok(v) ==> ((v is Some) == cap_found(
            code,
            line,
            work,
            results,
        )) && (v matches Some(p) ==> p.0 <= p.1 <= line.len()),
        cap_run(code, line, work, results, fuel) matches Err(e) ==> e == EvalError::StepLimit,
    decreases fuel,
{
    if fuel > 0 {
        lemma_cap_step(code, line, work, results);
        match cap_step(code, line, work, results) {
            CapStep::Next(w2, r2) => {
                lemma_cap_run(code, line, w2, r2, (fuel - 1) as nat);
            },
            CapStep::Done(_) => {},
            CapStep::Fail(_) => {},
        }
    }
}

/// A single starting task with no sub-results can find a span exactly when
/// the machine matches from its configuration.
pub proof fn lemma_cap_found_single(
    code: Seq<Instruction>,
    line: Seq<char>,
    pc: usize,
    sp: usize,
    ssp: Option<usize>,
)
    ensures
        cap_found(code, line, seq![CapTask::Run(pc, sp, ssp)], Seq::empty()) == machine_matches(
            code,
            line,
            pc as int,
            sp as int,
        ),
{
    let work = seq![CapTask::Run(pc, sp, ssp)];
    if machine_matches(code, line, pc as int, sp as int) {
        assert(work[0] == CapTask::Run(pc, sp, ssp));
        assert(tasks_found(code, line, work));
    }
    assert(!results_found(Seq::empty()));
}

/// The capturing counterpart of [`dfs_pinned`].
#[verifier::opaque]
pub open spec fn cap_pinned(
    code: Seq<Instruction>,
    line: Seq<char>,
    init: Seq<CapTask>,
    work: Seq<CapTask>,
    results: Seq<Option<(usize, usize)>>,
    fuel: nat,
) -> bool {
    cap_run(code, line, work, results, fuel) == cap_run(
        code,
        line,
        init,
        Seq::empty(),
        usize::MAX as nat,
    )
}

proof fn lemma_cap_pinned_init(code: Seq<Instruction>, line: Seq<char>, init: Seq<CapTask>)
    ensures
        cap_pinned(code, line, init, init, Seq::empty(), usize::MAX as nat),
{
    reveal(cap_pinned);
}

proof fn lemma_cap_pinned_next(
    code: Seq<Instruction>,
    line: Seq<char>,
    init: Seq<CapTask>,
    work: Seq<CapTask>,
    results: Seq<Option<(usize, usize)>>,
    w2: Seq<CapTask>,
    r2: Seq<Option<(usize, usize)>>,
    fuel: nat,
)
    requires
        fuel > 0,
        cap_pinned(code, line, init, work, results, fuel),
        cap_step(code, line, work, results) == CapStep::Next(w2, r2),
    ensures
        cap_pinned(code, line, init, w2, r2, (fuel - 1) as nat),
{
    reveal(cap_pinned);
}

proof fn lemma_cap_pinned_done(
    code: Seq<Instruction>,
    line: Seq<char>,
    init: Seq<CapTask>,
    work: Seq<CapTask>,
    results: Seq<Option<(usize, usize)>>,
    fuel: nat,
    v: Option<(usize, usize)>,
)
    requires
        fuel > 0,
        cap_pinned(code, line, init, work, results, fuel),
        cap_step(code, line, work, results) == CapStep::Done(v),
    ensures
        cap_run(code, line, init, Seq::empty(), usize::MAX as nat) == Result::<
            Option<(usize, usize)>,
            EvalError,
        >::Ok(v),
{
    reveal(cap_pinned);
}

proof fn lemma_cap_pinned_limit(
    code: Seq<Instruction>,
    line: Seq<char>,
    init: Seq<CapTask>,
    work: Seq<CapTask>,
    results: Seq<Option<(usize, usize)>>,
)
    requires
        cap_pinned(code, line, init, work, results, 0),
    ensures
        cap_run(code, line, init, Seq::empty(), usize::MAX as nat) == Result::<
            Option<(usize, usize)>,
            EvalError,
        >::Err(EvalError::StepLimit),
{
    reveal(cap_pinned);
}

/// What one implementation step of the capturing search did.
enum CapOutcome {
    Continued,
    Finished(Option<(usize, usize)>),
    Faulted(EvalError),
}

/// Of two optional spans, the longer one; the first wins ties.
fn join_ranges(a: Option<(usize, usize)>, b: Option<(usize, usize)>) -> (r: Option<
    (usize, usize),
>)
    requires
        a matches Some(p) ==> p.0 <= p.1,
        b matches Some(p) ==> p.0 <= p.1,
    ensures
        r == join_spans(a, b),
{
    match (a, b) {
        (Option::Some(x), Option::Some(y)) => {
            if x.1 - x.0 >= y.1 - y.0 {
                Option::Some(x)
            } else {
                Option::Some(y)
            }
        },
        (Option::None, Option::Some(y)) => Option::Some(y),
        (Option::Some(x), Option::None) => Option::Some(x),
        (Option::None, Option::None) => Option::None,
    }
}

/// Performs one [`cap_step`] on the task and result stacks.
fn cap_step_exec(
    inst: &[Instruction],
    line: &[char],
    work: &mut Vec<CapTask>,
    results: &mut Vec<Option<(usize, usize)>>,
) -> (r: CapOutcome)
    requires
        tasks_valid(inst@, line@, old(work)@),
        results_valid(line@, old(results)@),
    ensures
        match r {
            CapOutcome::Continued => cap_step(inst@, line@, old(work)@, old(results)@)
                == CapStep::Next(final(work)@, final(results)@),
            CapOutcome::Finished(v) => cap_step(inst@, line@, old(work)@, old(results)@)
                == CapStep::Done(v),
            CapOutcome::Faulted(e) => cap_step(inst@, line@, old(work)@, old(results)@)
                == CapStep::Fail(e),
        },
{
    match work.pop() {
        Option::None => {
            match results.pop() {
                Option::Some(v) => {
                    if results.len() == 0 {
                        CapOutcome::Finished(v)
                    } else {
                        CapOutcome::Faulted(EvalError::InvalidContext)
                    }
                },
                Option::None => CapOutcome::Faulted(EvalError::InvalidContext),
            }
        },
        Option::Some(CapTask::Combine) => {
            proof {
                assert(old(work)@[old(work)@.len() - 1] == old(work)@.last());
            }
            let b = match results.pop() {
                Option::Some(v) => v,
                Option::None => {
                    return CapOutcome::Faulted(EvalError::InvalidContext);
                },
            };
            let a = match results.pop() {
                Option::Some(v) => v,
                Option::None => {
                    return CapOutcome::Faulted(EvalError::InvalidContext);
                },
            };
            proof {
                assert(old(results)@[old(results)@.len() - 1] == b);
                assert(old(results)@[old(results)@.len() - 2] == a);
            }
            results.push(join_ranges(a, b));
            CapOutcome::Continued
        },
        Option::Some(CapTask::Run(pc, sp, ssp)) => {
            proof {
                assert(old(work)@[old(work)@.len() - 1] == old(work)@.last());
            }
            if pc >= inst.len() {
                return CapOutcome::Faulted(EvalError::InvalidPC);
            }
            let ins = inst[pc];
            match ins {
                Instruction::Char(c) => {
                    if sp < line.len() && line[sp] == c {
                        let npc = match pc.checked_add(1) {
                            Option::Some(v) => v,
                            Option::None => {
                                return CapOutcome::Faulted(EvalError::PCOverFlow);
                            },
                        };
                        let nsp = match sp.checked_add(1) {
                            Option::Some(v) => v,
                            Option::None => {
                                return CapOutcome::Faulted(EvalError::SPOverFlow);
                            },
                        };
                        work.push(CapTask::Run(npc, nsp, ssp));
                    } else {
                        results.push(Option::None);
                    }
                    CapOutcome::Continued
                },
                Instruction::AnyChar => {
                    if sp < line.len() {
                        let npc = match pc.checked_add(1) {
                            Option::Some(v) => v,
                            Option::None => {
                                return CapOutcome::Faulted(EvalError::PCOverFlow);
                            },
                        };
                        let nsp = match sp.checked_add(1) {
                            Option::Some(v) => v,
                            Option::None => {
                                return CapOutcome::Faulted(EvalError::SPOverFlow);
                            },
                        };
                        work.push(CapTask::Run(npc, nsp, ssp));
                    } else {
                        results.push(Option::None);
                    }
                    CapOutcome::Continued
                },
                Instruction::Start => {
                    let npc = match pc.checked_add(1) {
                        Option::Some(v) => v,
                        Option::None => {
                            return CapOutcome::Faulted(EvalError::PCOverFlow);
                        },
                    };
                    work.push(CapTask::Run(npc, sp, Option::Some(sp)));
                    CapOutcome::Continued
                },
                Instruction::IsHead => {
                    if sp == 0 {
                        let npc = match pc.checked_add(1) {
                            Option::Some(v) => v,
                            Option::None => {
                                return CapOutcome::Faulted(EvalError::PCOverFlow);
                            },
                        };
                        work.push(CapTask::Run(npc, sp, ssp));
                    } else {
                        results.push(Option::None);
                    }
                    CapOutcome::Continued
                },
                Instruction::IsTail => {
                    if sp == line.len() {
                        let npc = match pc.checked_add(1) {
                            Option::Some(v) => v,
                            Option::None => {
                                return CapOutcome::Faulted(EvalError::PCOverFlow);
                            },
                        };
                        work.push(CapTask::Run(npc, sp, ssp));
                    } else {
                        results.push(Option::None);
                    }
                    CapOutcome::Continued
                },
                Instruction::Match => {
                    match ssp {
                        Option::Some(s) => {
                            results.push(Option::Some((s, sp)));
                            CapOutcome::Continued
                        },
                        Option::None => CapOutcome::Faulted(EvalError::NotStarted),
                    }
                },
                Instruction::Jump(t) => {
                    work.push(CapTask::Run(t, sp, ssp));
                    CapOutcome::Continued
                },
                Instruction::Split(a, b) => {
                    work.push(CapTask::Combine);
                    work.push(CapTask::Run(b, sp, ssp));
                    work.push(CapTask::Run(a, sp, ssp));
                    CapOutcome::Continued
                },
                Instruction::Nop => CapOutcome::Faulted(EvalError::AttemptNop),
            }
        },
    }
}

/// The capturing depth-first evaluation: like the boolean depth-first
/// strategy, but both branches of every `Split` run to completion and the
/// longer matched span wins, so that the returned span is the best one.
fn eval_depth_with_pattern(
    inst: &[Instruction],
    line: &[char],
    pc: usize,
    sp: usize,
    ssp: Option<usize>,
) -> (r: Result<Option<(usize, usize)>, EvalError>)
    requires
        code_with_preamble(inst@),
        pc < inst@.len(),
        sp <= line@.len(),
        ssp matches Some(s) ==> s <= sp,
        ssp is None ==> pc <= 3,
    ensures
        r == cap_run(inst@, line@, seq![CapTask::Run(pc, sp, ssp)], Seq::empty(), usize::MAX as nat),
        r matches Ok(v) ==> ((v is Some) == machine_matches(inst@, line@, pc as int, sp as int))
            && (v matches Some(p) ==> p.0 <= p.1 <= line@.len()),
        r matches Err(e) ==> e == EvalError::StepLimit,
{
    let n = inst.len();
    let m = line.len();
    let mut work: Vec<CapTask> = Vec::new();
    let mut results: Vec<Option<(usize, usize)>> = Vec::new();
    work.push(CapTask::Run(pc, sp, ssp));
    let ghost init = seq![CapTask::Run(pc, sp, ssp)];
    let mut fuel: usize = usize::MAX;
    proof {
        assert(work@ =~= init);
        assert(results@ =~= Seq::<Option<(usize, usize)>>::empty());
        lemma_cap_balanced_push_run(Seq::<CapTask>::empty(), 0int, CapTask::Run(pc, sp, ssp));
        assert(Seq::<CapTask>::empty().push(CapTask::Run(pc, sp, ssp)) =~= init);
        assert(cap_balanced(init, 0int));
        lemma_cap_pinned_init(inst@, line@, init);
        lemma_cap_run(inst@, line@, init, Seq::empty(), usize::MAX as nat);
        lemma_cap_found_single(inst@, line@, pc, sp, ssp);
        assert(tasks_valid(inst@, line@, work@));
    }
    loop
        invariant
            code_with_preamble(inst@),
            inst@.len() == n,
            line@.len() == m,
            tasks_valid(inst@, line@, work@),
            results_valid(line@, results@),
            cap_balanced(work@, results@.len() as int),
            init == seq![CapTask::Run(pc, sp, ssp)],
            cap_pinned(inst@, line@, init, work@, results@, fuel as nat),
            cap_run(inst@, line@, init, Seq::empty(), usize::MAX as nat) matches Ok(v) ==> ((
            v is Some) == machine_matches(inst@, line@, pc as int, sp as int)) && (
            v matches Some(p) ==> p.0 <= p.1 <= line@.len()),
            cap_run(inst@, line@, init, Seq::empty(), usize::MAX as nat) matches Err(e) ==> e
                == EvalError::StepLimit,
        decreases fuel,
    {
        if fuel == 0 {
            proof {
                lemma_cap_pinned_limit(inst@, line@, init, work@, results@);
            }
            return Result::Err(EvalError::StepLimit);
        }
        let ghost prew = work@;
        let ghost prer = results@;
        match cap_step_exec(inst, line, &mut work, &mut results) {
            CapOutcome::Continued => {
                proof {
                    lemma_cap_step(inst@, line@, prew, prer);
                    lemma_cap_pinned_next(
                        inst@,
                        line@,
                        init,
                        prew,
                        prer,
                        work@,
                        results@,
                        fuel as nat,
                    );
                }
                fuel = fuel - 1;
            },
            CapOutcome::Finished(v) => {
                proof {
                    lemma_cap_pinned_done(inst@, line@, init, prew, prer, fuel as nat, v);
                }
                return Result::Ok(v);
            },
            CapOutcome::Faulted(e) => {
                proof {
                    lemma_cap_step(inst@, line@, prew, prer);
                }
                return Result::Err(e);
            },
        }
    }
}

/// The breadth-first capturing strategy is not provided; calling it
/// reports that explicitly rather than computing a possibly wrong span.
fn eval_width_with_pattern(_inst: &[Instruction], _line: &[char]) -> (r: Result<
    Option<(usize, usize)>,
    EvalError,
>)
    ensures
        r == Result::<Option<(usize, usize)>, EvalError>::Err(EvalError::NotImplemented),
{
    Result::Err(EvalError::NotImplemented)
}

/// Finds the best matched span of the program on the input, with the
/// chosen strategy.  Under the depth-first strategy the answer finds a
/// span exactly when the program matches; the breadth-first capturing
/// strategy does not exist and reports [`EvalError::NotImplemented`].
pub fn eval_with_pattern(code: &Code, line: &[char], is_depth: bool) -> (r: Result<
    Option<(usize, usize)>,
    EvalError,
>)
    requires
        code_with_preamble(code@),
    ensures
        is_depth ==> r == cap_run(
            code@,
            line@,
            seq![CapTask::Run(0usize, 0usize, Option::<usize>::None)],
            Seq::empty(),
            usize::MAX as nat,
        ),
        is_depth ==> (r matches Ok(v) ==> ((v is Some) == machine_matches(code@, line@, 0, 0)) && (
        v matches Some(p) ==> p.0 <= p.1 <= line@.len())),
        is_depth ==> (r matches Err(e) ==> e == EvalError::StepLimit),
        !is_depth ==> r == Result::<Option<(usize, usize)>, EvalError>::Err(
            EvalError::NotImplemented,
        ),
{
    if is_depth {
        eval_depth_with_pattern(code.instractions().as_slice(), line, 0, 0, Option::None)
    } else {
        eval_width_with_pattern(code.instractions().as_slice(), line)
    }
}

/// Law: on one program and input, whenever the depth-first and the
/// breadth-first boolean searches both answer, they agree, whatever step
/// budgets they were given: each answer is exactly [`machine_matches`]
/// from the start of the program.
pub proof fn lemma_strategies_agree(
    code: Seq<Instruction>,
    line: Seq<char>,
    f1: nat,
    f2: nat,
    b1: bool,
    b2: bool,
)
    requires
        code_wf(code),
        code.len() <= usize::MAX,
        line.len() <= usize::MAX,
        dfs_run(code, line, seq![(0usize, 0usize)], f1) == Result::<bool, EvalError>::Ok(b1),
        bfs_run(code, line, seq![(0usize, 0usize)], f2) == Result::<bool, EvalError>::Ok(b2),
    ensures
        b1 == b2,
        b1 == machine_matches(code, line, 0, 0),
{
    let init = seq![(0usize, 0usize)];
    assert(init[0] == (0usize, 0usize));
    assert(frames_valid(code, line, init));
    lemma_dfs_run(code, line, init, f1);
    lemma_bfs_run(code, line, init, f2);
    lemma_frames_match_single(code, line, 0, 0);
}

/// Law: on one compiled program and input, whenever the depth-first
/// boolean search and the capturing depth-first search both answer, the
/// capturing search finds a span exactly when the boolean search reports a
/// match, whatever step budgets they were given.
pub proof fn lemma_span_agrees_with_match(
    code: Seq<Instruction>,
    line: Seq<char>,
    f1: nat,
    f2: nat,
    b: bool,
    v: Option<(usize, usize)>,
)
    requires
        code_with_preamble(code),
        code.len() <= usize::MAX,
        line.len() <= usize::MAX,
        dfs_run(code, line, seq![(0usize, 0usize)], f1) == Result::<bool, EvalError>::Ok(b),
        cap_run(
            code,
            line,
            seq![CapTask::Run(0usize, 0usize, Option::<usize>::None)],
            Seq::empty(),
            f2,
        ) == Result::<Option<(usize, usize)>, EvalError>::Ok(v),
    ensures
        (v is Some) == b,
{
    let init = seq![(0usize, 0usize)];
    assert(init[0] == (0usize, 0usize));
    assert(frames_valid(code, line, init));
    lemma_dfs_run(code, line, init, f1);
    lemma_frames_match_single(code, line, 0, 0);
    let initc = seq![CapTask::Run(0usize, 0usize, Option::<usize>::None)];
    assert(initc[0] == CapTask::Run(0usize, 0usize, Option::<usize>::None));
    assert(tasks_valid(code, line, initc));
    lemma_cap_balanced_push_run(
        Seq::<CapTask>::empty(),
        0int,
        CapTask::Run(0usize, 0usize, Option::<usize>::None),
    );
    assert(Seq::<CapTask>::empty().push(CapTask::Run(0usize, 0usize, Option::<usize>::None))
        =~= initc);
    lemma_cap_run(code, line, initc, Seq::empty(), f2);
    lemma_cap_found_single(code, line, 0, 0, Option::None);
}

/// Decides whether the program matches the input, with the chosen
/// strategy.  Whenever it answers, the answer is exactly
/// [`machine_matches`] from the start of the program, under either
/// strategy; only the step budget can keep it from answering.
pub fn eval(code: &Code, line: &[char], is_depth: bool) -> (r: Result<bool, EvalError>)
    requires
        code_wf(code@),
    ensures
        r matches Ok(b) ==> b == machine_matches(code@, line@, 0, 0),
        r matches Err(e) ==> e == EvalError::StepLimit,
        is_depth ==> r == dfs_run(code@, line@, seq![(0usize, 0usize)], usize::MAX as nat),
        !is_depth ==> r == bfs_run(code@, line@, seq![(0usize, 0usize)], usize::MAX as nat),
{
    if is_depth {
        eval_depth(code.instractions().as_slice(), line, 0, 0)
    } else {
        eval_width(code.instractions().as_slice(), line)
    }
}

} // verus!
