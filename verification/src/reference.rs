//! The reference interpreter: it walks algorithms in their structured form.
//! Lowering is held against it: the instructions that an algorithm lowers to
//! do what walking the algorithm does.

use vstd::prelude::*;
use crate::ast::{
    arm_blocks, arm_table, block_start, guarded_blocks, lemma_block_start, lemma_link_layout,
    lemma_link_len, link, lower, lower_expr, lower_stmt, lower_stmts, Expression, Statement,
};
use crate::data::{view_bool, DataView, FieldView};
use crate::instance::Flop;
use crate::item::TypesView;
use crate::prelude::{dict_get, lemma_insert_get, Fault};
use crate::runtime::{names_view, ArmView, StatementView};
use crate::semantics::{
    destructure, eval, jump, leave, next, perform, run, single, step, step_branch,
    step_debug_nums, step_evaluate, step_pattern, step_set_add, step_set_remove, step_state,
    step_wait, AlgorithmResultView, Frame, Limits, Ran, Stepped, World,
};

verus! {

/// The outcome of walking statements.
pub enum Walked<H> {
    /// They ran through: the world, the variables and the flag after them.
    Through(World<H>, DataView, bool),
    /// One of them ended the activation.
    Exit(World<H>, bool, AlgorithmResultView),
    Fault(World<H>, Fault),
    /// A loop went round more often than the walk was given rounds.
    Spent,
}

/// The index of the last of the first `n` arms that has the tag `tag`.
pub open spec fn last_arm(
    arms: Seq<(String, Vec<String>, Vec<Statement>)>,
    n: int,
    tag: Seq<char>,
) -> Option<int>
    decreases n,
{
    if n <= 0 {
        None
    } else if arms[n - 1].0@ == tag {
        Some(n - 1)
    } else {
        last_arm(arms, n - 1, tag)
    }
}

/// The frame at another place, with other variables and another flag.
pub open spec fn moved(frame: Frame, pc: int, vars: DataView, has_state: bool) -> Frame {
    Frame { pc: pc as usize, vars, has_state, ..frame }
}

/// Walks the statements from the `i`th on. The program counter of `frame` is
/// the place that the `i`th statement has in the code: a wait remembers the
/// place behind it to go on from.
pub open spec fn walk_list<H: Flop>(
    types: TypesView,
    limits: Limits,
    world: World<H>,
    frame: Frame,
    stmts: Seq<Statement>,
    i: int,
    rounds: nat,
    depth: nat,
) -> Walked<H>
    decreases rounds, stmts, 0int, stmts.len() - i,
{
    if i < 0 || i >= stmts.len() {
        Walked::Through(world, frame.vars, frame.has_state)
    } else {
        match walk_stmt(types, limits, world, frame, stmts[i], rounds, depth) {
            Walked::Through(w, vars, has_state) => walk_list(
                types,
                limits,
                w,
                moved(frame, frame.pc + lower_stmt(stmts[i]).len(), vars, has_state),
                stmts,
                i + 1,
                rounds,
                depth,
            ),
            other => other,
        }
    }
}

/// Walks one statement.
pub open spec fn walk_stmt<H: Flop>(
    types: TypesView,
    limits: Limits,
    world: World<H>,
    frame: Frame,
    s: Statement,
    rounds: nat,
    depth: nat,
) -> Walked<H>
    decreases rounds, s, 1int, 0int,
{
    match s {
        Statement::WhileLoop { .. } => walk_while(types, limits, world, frame, s, rounds, depth),
        Statement::Branch { .. } => walk_chain(types, limits, world, frame, s, 0, rounds, depth),
        Statement::Match { .. } => walk_match(types, limits, world, frame, s, rounds, depth),
        _ => match perform(types, limits, world, frame, lower_stmt(s)[0], depth) {
            Stepped::Next(w, pc, vars, has_state) => Walked::Through(w, vars, has_state),
            Stepped::Exit(w, has_state, result) => Walked::Exit(w, has_state, result),
            Stepped::Fault(w, f) => Walked::Fault(w, f),
        },
    }
}

/// The truth of a condition, with the world and the variables after its
/// evaluation, or the fault.
pub open spec fn decide<H: Flop>(
    types: TypesView,
    limits: Limits,
    world: World<H>,
    frame: Frame,
    condition: Expression,
    depth: nat,
) -> Result<(World<H>, DataView, bool), (World<H>, Fault)> {
    let r = single(
        eval(types, limits, world, frame.vars, frame.object, lower_expr(condition), depth),
    );
    match r.result {
        Err(f) => Err((r.world, f)),
        Ok(vals) => match view_bool(vals[0]) {
            None => Err((r.world, Fault::TypeMismatch)),
            Some(b) => Ok((r.world, r.vars, b)),
        },
    }
}

/// Walks a loop: as long as the condition holds, the body, and round again.
pub open spec fn walk_while<H: Flop>(
    types: TypesView,
    limits: Limits,
    world: World<H>,
    frame: Frame,
    s: Statement,
    rounds: nat,
    depth: nat,
) -> Walked<H>
    decreases rounds, s, 0int, 0int,
{
    match s {
        Statement::WhileLoop { condition, block } => match decide(
            types,
            limits,
            world,
            frame,
            condition,
            depth,
        ) {
            Err(e) => Walked::Fault(e.0, e.1),
            Ok((w, vars, false)) => Walked::Through(w, vars, frame.has_state),
            Ok((w, vars, true)) => if rounds == 0 {
                Walked::Spent
            } else {
                match walk_list(
                    types,
                    limits,
                    w,
                    moved(frame, frame.pc + 1, vars, frame.has_state),
                    block@,
                    0,
                    rounds,
                    depth,
                ) {
                    Walked::Through(w2, vars2, has_state2) => walk_while(
                        types,
                        limits,
                        w2,
                        moved(frame, frame.pc as int, vars2, has_state2),
                        s,
                        (rounds - 1) as nat,
                        depth,
                    ),
                    other => other,
                }
            },
        },
        _ => Walked::Spent,
    }
}

/// Walks an if-chain from its `i`th guarded block on: the first block whose
/// condition holds, or the last block where none does.
pub open spec fn walk_chain<H: Flop>(
    types: TypesView,
    limits: Limits,
    world: World<H>,
    frame: Frame,
    s: Statement,
    i: int,
    rounds: nat,
    depth: nat,
) -> Walked<H>
    decreases rounds, s, 0int, s->if_branches@.len() - i,
{
    match s {
        Statement::Branch { if_branches, else_branch } => if i < 0 || i >= if_branches@.len() {
            walk_list(types, limits, world, frame, else_branch@, 0, rounds, depth)
        } else {
            match decide(types, limits, world, frame, if_branches@[i].0, depth) {
                Err(e) => Walked::Fault(e.0, e.1),
                Ok((w, vars, true)) => walk_list(
                    types,
                    limits,
                    w,
                    moved(frame, frame.pc + 1, vars, frame.has_state),
                    if_branches@[i].1@,
                    0,
                    rounds,
                    depth,
                ),
                Ok((w, vars, false)) => walk_chain(
                    types,
                    limits,
                    w,
                    moved(
                        frame,
                        frame.pc + lower(if_branches@[i].1@).len() + 2,
                        vars,
                        frame.has_state,
                    ),
                    s,
                    i + 1,
                    rounds,
                    depth,
                ),
            }
        },
        _ => Walked::Spent,
    }
}

/// Walks a match: the block of the last arm that has the record's tag, with
/// the arm's fields bound, or the default block where no arm has it.
pub open spec fn walk_match<H: Flop>(
    types: TypesView,
    limits: Limits,
    world: World<H>,
    frame: Frame,
    s: Statement,
    rounds: nat,
    depth: nat,
) -> Walked<H>
    decreases rounds, s, 0int, 0int,
{
    match s {
        Statement::Match { data, arms, def } => {
            let blocks = arm_blocks(arms@).push(lower(def@));
            let r = single(
                eval(types, limits, world, frame.vars, frame.object, lower_expr(data), depth),
            );
            match r.result {
                Err(f) => Walked::Fault(r.world, f),
                Ok(vals) => match vals[0] {
                    FieldView::Data(tag, record) => match last_arm(
                        arms@,
                        arms@.len() as int,
                        tag,
                    ) {
                        None => walk_list(
                            types,
                            limits,
                            r.world,
                            moved(
                                frame,
                                frame.pc + block_start(blocks, arms@.len() as int, 1),
                                r.vars,
                                frame.has_state,
                            ),
                            def@,
                            0,
                            rounds,
                            depth,
                        ),
                        Some(j) => if 0 <= j < arms@.len() {
                            match destructure(names_view(arms@[j].1@), 0, record, r.vars) {
                                Err(f) => Walked::Fault(r.world, f),
                                Ok(bound) => walk_list(
                                    types,
                                    limits,
                                    r.world,
                                    moved(
                                        frame,
                                        frame.pc + block_start(blocks, j, 1),
                                        bound,
                                        frame.has_state,
                                    ),
                                    arms@[j].2@,
                                    0,
                                    rounds,
                                    depth,
                                ),
                            }
                        } else {
                            Walked::Spent
                        },
                    },
                    _ => Walked::Fault(r.world, Fault::TypeMismatch),
                },
            }
        },
        _ => Walked::Spent,
    }
}

/// Whether `part` stands in `code` from the place `base` on.
pub open spec fn located(code: Seq<StatementView>, base: int, part: Seq<StatementView>) -> bool {
    &&& 0 <= base
    &&& base + part.len() <= code.len()
    &&& forall|i: int| 0 <= i < part.len() ==> code[base + i] == #[trigger] part[i]
}

/// What the activation comes to after a walk: it goes on at `end` where the
/// statements ran through, and ends as the walk did where it did not.
pub open spec fn after<H: Flop>(
    types: TypesView,
    limits: Limits,
    walked: Walked<H>,
    frame: Frame,
    end: int,
    steps: nat,
    depth: nat,
) -> Ran<H> {
    match walked {
        Walked::Through(w, vars, has_state) => run(
            types,
            limits,
            w,
            moved(frame, end, vars, has_state),
            steps,
            depth,
        ),
        Walked::Exit(w, has_state, result) => leave(w, has_state, result),
        Walked::Fault(w, f) => Ran { world: w, result: Err(f) },
        Walked::Spent => Ran { world: arbitrary(), result: Err(Fault::LimitReached) },
    }
}

/// Whether running the instructions from where `frame` stands does what the
/// walk did: given at least `k` steps, the run comes to what the walk came
/// to, `k` steps on.
pub open spec fn agrees<H: Flop>(
    types: TypesView,
    limits: Limits,
    world: World<H>,
    frame: Frame,
    walked: Walked<H>,
    end: int,
    k: nat,
    depth: nat,
) -> bool {
    forall|steps: nat|
        steps >= k ==> #[trigger] run(types, limits, world, frame, steps, depth) == after(
            types,
            limits,
            walked,
            frame,
            end,
            (steps - k) as nat,
            depth,
        )
}

/// What one instruction comes to, as a walk.
pub open spec fn stepped_walk<H>(s: Stepped<H>) -> Walked<H> {
    match s {
        Stepped::Next(w, pc, vars, has_state) => Walked::Through(w, vars, has_state),
        Stepped::Exit(w, has_state, result) => Walked::Exit(w, has_state, result),
        Stepped::Fault(w, f) => Walked::Fault(w, f),
    }
}

/// Running one instruction is one step of the run.
pub proof fn lemma_one_step<H: Flop>(
    types: TypesView,
    limits: Limits,
    world: World<H>,
    frame: Frame,
    depth: nat,
)
    requires
        frame.pc < frame.code.len(),
    ensures
        agrees(
            types,
            limits,
            world,
            frame,
            stepped_walk(step(types, limits, world, frame, depth)),
            match step(types, limits, world, frame, depth) {
                Stepped::Next(w, pc, vars, has_state) => pc as int,
                _ => 0,
            },
            1,
            depth,
        ),
{
    assert forall|steps: nat| steps >= 1 implies #[trigger] run(
        types,
        limits,
        world,
        frame,
        steps,
        depth,
    ) == after(
        types,
        limits,
        stepped_walk(step(types, limits, world, frame, depth)),
        frame,
        match step(types, limits, world, frame, depth) {
            Stepped::Next(w, pc, vars, has_state) => pc as int,
            _ => 0,
        },
        (steps - 1) as nat,
        depth,
    ) by {
        reveal(run);
    }
}

/// A run that agrees with a walk that ran through, and from there agrees
/// with a second walk, agrees with the second walk.
pub proof fn lemma_agrees_then<H: Flop>(
    types: TypesView,
    limits: Limits,
    world: World<H>,
    frame: Frame,
    first: Walked<H>,
    mid: int,
    k1: nat,
    second: Walked<H>,
    end: int,
    k2: nat,
    depth: nat,
)
    requires
        agrees(types, limits, world, frame, first, mid, k1, depth),
        first matches Walked::Through(w, vars, has_state) && agrees(
            types,
            limits,
            w,
            moved(frame, mid, vars, has_state),
            second,
            end,
            k2,
            depth,
        ),
    ensures
        agrees(types, limits, world, frame, second, end, k1 + k2, depth),
{
    let w = first->Through_0;
    let vars = first->Through_1;
    let has_state = first->Through_2;
    let frame1 = moved(frame, mid, vars, has_state);
    assert forall|steps: nat| steps >= k1 + k2 implies #[trigger] run(
        types,
        limits,
        world,
        frame,
        steps,
        depth,
    ) == after(types, limits, second, frame, end, (steps - (k1 + k2)) as nat, depth) by {
        let rest = (steps - k1) as nat;
        assert(run(types, limits, world, frame, steps, depth) == run(
            types,
            limits,
            w,
            frame1,
            rest,
            depth,
        ));
        assert(run(types, limits, w, frame1, rest, depth) == after(
            types,
            limits,
            second,
            frame1,
            end,
            (rest - k2) as nat,
            depth,
        ));
    }
}

/// Whether an instruction is one that a statement without blocks lowers to.
pub open spec fn plain(instr: StatementView) -> bool {
    match instr {
        StatementView::Debug(_) => true,
        StatementView::DebugNums(_) => true,
        StatementView::Evaluate { .. } => true,
        StatementView::State(_) => true,
        StatementView::Wait(_) => true,
        StatementView::CancelWait => true,
        StatementView::SetAdd { .. } => true,
        StatementView::SetRemove { .. } => true,
        StatementView::ContinueLoop => true,
        _ => false,
    }
}

/// After a plain instruction the activation goes on with the instruction
/// behind it, if it goes on.
pub proof fn lemma_plain_next<H: Flop>(
    types: TypesView,
    limits: Limits,
    world: World<H>,
    frame: Frame,
    instr: StatementView,
    depth: nat,
)
    requires
        plain(instr),
    ensures
        perform(types, limits, world, frame, instr, depth) matches Stepped::Next(w, pc, v, h)
            ==> pc == (frame.pc + 1) as usize,
{
    reveal(perform);
    reveal(step_debug_nums);
    reveal(step_evaluate);
    reveal(step_state);
    reveal(step_wait);
    reveal(step_set_add);
    reveal(step_set_remove);
}

/// Whether a statement holds no blocks.
pub open spec fn blockless(s: Statement) -> bool {
    !(s is WhileLoop) && !(s is Branch) && !(s is Match)
}

/// A statement without blocks lowers to one plain instruction.
pub proof fn lemma_blockless(s: Statement)
    requires
        blockless(s),
    ensures
        lower_stmt(s).len() == 1,
        plain(lower_stmt(s)[0]),
{
}

/// The code of a statement stands in the code of its list behind the code
/// of the statements before it.
pub proof fn lemma_lower_at(v: Seq<Statement>, i: int, n: int)
    requires
        0 <= i < n <= v.len(),
    ensures
        lower_stmts(v, i + 1) == lower_stmts(v, i) + lower_stmt(v[i]),
        located(lower_stmts(v, n), lower_stmts(v, i).len() as int, lower_stmt(v[i])),
    decreases n,
{
    if i < n - 1 {
        lemma_lower_at(v, i, n - 1);
    }
}

/// Code that stands in a part of the code stands in the code.
pub proof fn lemma_located_in(
    code: Seq<StatementView>,
    base: int,
    part: Seq<StatementView>,
    at: int,
    piece: Seq<StatementView>,
)
    requires
        located(code, base, part),
        located(part, at, piece),
    ensures
        located(code, base + at, piece),
{
    assert forall|i: int| 0 <= i < piece.len() implies code[base + at + i] == #[trigger] piece[i] by {
        assert(part[at + i] == piece[i]);
        assert(code[base + (at + i)] == part[at + i]);
    }
}

/// A jump that closes a block leads to the end of the linked blocks.
pub proof fn lemma_closing_jump<H: Flop>(
    types: TypesView,
    limits: Limits,
    world: World<H>,
    frame: Frame,
    skip: isize,
    end: int,
    depth: nat,
)
    requires
        frame.pc < frame.code.len(),
        frame.code[frame.pc as int] == StatementView::Jump(skip),
        frame.pc + skip == end,
        0 <= end <= frame.code.len(),
        frame.code.len() <= isize::MAX,
    ensures
        agrees(
            types,
            limits,
            world,
            frame,
            Walked::Through(world, frame.vars, frame.has_state),
            end,
            1,
            depth,
        ),
{
    reveal(perform);
    lemma_one_step(types, limits, world, frame, depth);
}

/// The branch at the head of a guarded block or of a loop does what the
/// decision on its condition says: on with the next instruction where the
/// condition holds, ahead by the offset where it does not.
pub proof fn lemma_branch_step<H: Flop>(
    types: TypesView,
    limits: Limits,
    world: World<H>,
    frame: Frame,
    condition: Expression,
    offset: int,
    depth: nat,
)
    requires
        frame.pc < frame.code.len(),
        frame.code.len() <= isize::MAX,
        0 <= offset,
        frame.pc + offset <= frame.code.len(),
        frame.code[frame.pc as int] == (StatementView::Branch {
            condition: lower_expr(condition),
            break_offset: offset as usize,
        }),
    ensures
        match decide(types, limits, world, frame, condition, depth) {
            Err(e) => agrees(types, limits, world, frame, Walked::Fault(e.0, e.1), 0, 1, depth),
            Ok((w, vars, true)) => agrees(
                types,
                limits,
                world,
                frame,
                Walked::Through(w, vars, frame.has_state),
                frame.pc + 1,
                1,
                depth,
            ),
            Ok((w, vars, false)) => agrees(
                types,
                limits,
                world,
                frame,
                Walked::Through(w, vars, frame.has_state),
                frame.pc + offset,
                1,
                depth,
            ),
        },
{
    reveal(perform);
    reveal(step_branch);
    lemma_one_step(types, limits, world, frame, depth);
}

/// Running a block and the jump that closes it does what walking the block
/// does, and ends where the jump leads.
#[verifier::spinoff_prover]
pub proof fn lemma_block_then_jump<H: Flop>(
    types: TypesView,
    limits: Limits,
    world: World<H>,
    frame: Frame,
    stmts: Seq<Statement>,
    skip: isize,
    end: int,
    rounds: nat,
    depth: nat,
) -> (k: nat)
    requires
        frame.code.len() <= isize::MAX,
        located(frame.code, frame.pc as int, lower(stmts)),
        frame.pc + lower(stmts).len() < frame.code.len(),
        frame.code[frame.pc + lower(stmts).len()] == StatementView::Jump(skip),
        frame.pc + lower(stmts).len() + skip == end,
        0 <= end <= frame.code.len(),
        !(walk_list(types, limits, world, frame, stmts, 0, rounds, depth) is Spent),
    ensures
        agrees(
            types,
            limits,
            world,
            frame,
            walk_list(types, limits, world, frame, stmts, 0, rounds, depth),
            end,
            k,
            depth,
        ),
    decreases rounds, stmts, 1int, 0int,
{
    let closing = frame.pc + lower(stmts).len();
    let kb = lemma_walk_list(types, limits, world, frame, stmts, 0, rounds, depth);
    let walked = walk_list(types, limits, world, frame, stmts, 0, rounds, depth);
    match walked {
        Walked::Through(w2, vars2, has_state2) => {
            let frame2 = moved(frame, closing, vars2, has_state2);
            lemma_closing_jump(types, limits, w2, frame2, skip, end, depth);
            lemma_agrees_then(
                types,
                limits,
                world,
                frame,
                walked,
                closing,
                kb,
                walked,
                end,
                1,
                depth,
            );
            kb + 1
        },
        _ => kb,
    }
}

/// Running the code of a list of statements does what walking them does.
#[verifier::spinoff_prover]
pub proof fn lemma_walk_list<H: Flop>(
    types: TypesView,
    limits: Limits,
    world: World<H>,
    frame: Frame,
    stmts: Seq<Statement>,
    i: int,
    rounds: nat,
    depth: nat,
) -> (k: nat)
    requires
        0 <= i <= stmts.len(),
        frame.code.len() <= isize::MAX,
        located(frame.code, frame.pc - lower_stmts(stmts, i).len(), lower(stmts)),
        !(walk_list(types, limits, world, frame, stmts, i, rounds, depth) is Spent),
    ensures
        agrees(
            types,
            limits,
            world,
            frame,
            walk_list(types, limits, world, frame, stmts, i, rounds, depth),
            frame.pc - lower_stmts(stmts, i).len() + lower(stmts).len(),
            k,
            depth,
        ),
    decreases rounds, stmts, 0int, stmts.len() - i,
{
    let base = frame.pc - lower_stmts(stmts, i).len();
    let end = base + lower(stmts).len();
    if i >= stmts.len() {
        assert(moved(frame, frame.pc as int, frame.vars, frame.has_state) == frame);
        0
    } else {
        let s = stmts[i];
        lemma_lower_at(stmts, i, stmts.len() as int);
        lemma_located_in(
            frame.code,
            base,
            lower(stmts),
            lower_stmts(stmts, i).len() as int,
            lower_stmt(s),
        );
        let k1 = lemma_walk_stmt(types, limits, world, frame, s, rounds, depth);
        let first = walk_stmt(types, limits, world, frame, s, rounds, depth);
        let mid = frame.pc + lower_stmt(s).len();
        match first {
            Walked::Through(w, vars, has_state) => {
                let frame1 = moved(frame, mid, vars, has_state);
                let k2 = lemma_walk_list(types, limits, w, frame1, stmts, i + 1, rounds, depth);
                lemma_agrees_then(
                    types,
                    limits,
                    world,
                    frame,
                    first,
                    mid,
                    k1,
                    walk_list(types, limits, w, frame1, stmts, i + 1, rounds, depth),
                    end,
                    k2,
                    depth,
                );
                k1 + k2
            },
            _ => k1,
        }
    }
}

/// Running the code of a statement does what walking it does.
#[verifier::spinoff_prover]
pub proof fn lemma_walk_stmt<H: Flop>(
    types: TypesView,
    limits: Limits,
    world: World<H>,
    frame: Frame,
    s: Statement,
    rounds: nat,
    depth: nat,
) -> (k: nat)
    requires
        frame.code.len() <= isize::MAX,
        located(frame.code, frame.pc as int, lower_stmt(s)),
        !(walk_stmt(types, limits, world, frame, s, rounds, depth) is Spent),
    ensures
        agrees(
            types,
            limits,
            world,
            frame,
            walk_stmt(types, limits, world, frame, s, rounds, depth),
            frame.pc + lower_stmt(s).len(),
            k,
            depth,
        ),
    decreases rounds, s, 1int, 0int,
{
    match s {
        Statement::WhileLoop { .. } => lemma_walk_while(
            types,
            limits,
            world,
            frame,
            s,
            rounds,
            depth,
        ),
        Statement::Branch { .. } => lemma_walk_chain(
            types,
            limits,
            world,
            frame,
            s,
            0,
            frame.pc as int,
            rounds,
            depth,
        ),
        Statement::Match { .. } => lemma_walk_match(types, limits, world, frame, s, rounds, depth),
        _ => {
            lemma_blockless(s);
            assert(frame.code[frame.pc + 0] == lower_stmt(s)[0]);
            lemma_plain_next(types, limits, world, frame, lower_stmt(s)[0], depth);
            lemma_one_step(types, limits, world, frame, depth);
            1
        },
    }
}

/// Running the code of a loop does what walking the loop does.
#[verifier::spinoff_prover]
pub proof fn lemma_walk_while<H: Flop>(
    types: TypesView,
    limits: Limits,
    world: World<H>,
    frame: Frame,
    s: Statement,
    rounds: nat,
    depth: nat,
) -> (k: nat)
    requires
        s is WhileLoop,
        frame.code.len() <= isize::MAX,
        located(frame.code, frame.pc as int, lower_stmt(s)),
        !(walk_while(types, limits, world, frame, s, rounds, depth) is Spent),
    ensures
        agrees(
            types,
            limits,
            world,
            frame,
            walk_while(types, limits, world, frame, s, rounds, depth),
            frame.pc + lower_stmt(s).len(),
            k,
            depth,
        ),
    decreases rounds, s, 0int, 0int,
{
    let condition = s->WhileLoop_condition;
    let block = s->WhileLoop_block;
    let body = lower(block@);
    let n = body.len() as int;
    let a = frame.pc as int;
    let code = lower_stmt(s);
    let end = a + code.len();
    assert(code.len() == n + 2);
    assert(frame.code[a + 0] == code[0]);
    assert(frame.code[a + (n + 1)] == code[n + 1]);
    assert(located(frame.code, a + 1, body)) by {
        assert forall|t: int| 0 <= t < body.len() implies frame.code[a + 1 + t] == #[trigger] body[t] by {
            assert(frame.code[a + (1 + t)] == code[1 + t]);
        }
    }
    lemma_branch_step(types, limits, world, frame, condition, n + 2, depth);
    match decide(types, limits, world, frame, condition, depth) {
        Err(e) => 1,
        Ok((w, vars, false)) => 1,
        Ok((w, vars, true)) => {
            let head = Walked::Through(w, vars, frame.has_state);
            let frame1 = moved(frame, a + 1, vars, frame.has_state);
            let kb = lemma_walk_list(types, limits, w, frame1, block@, 0, rounds, depth);
            let walked = walk_list(types, limits, w, frame1, block@, 0, rounds, depth);
            lemma_agrees_then(
                types,
                limits,
                world,
                frame,
                head,
                a + 1,
                1,
                walked,
                a + 1 + n,
                kb,
                depth,
            );
            match walked {
                Walked::Through(w2, vars2, has_state2) => {
                    let frame2 = moved(frame, a + 1 + n, vars2, has_state2);
                    let back = Walked::Through(w2, vars2, has_state2);
                    assert(agrees(types, limits, w2, frame2, back, a, 1, depth)) by {
                        reveal(perform);
                        lemma_one_step(types, limits, w2, frame2, depth);
                    }
                    lemma_agrees_then(
                        types,
                        limits,
                        world,
                        frame,
                        walked,
                        a + 1 + n,
                        1 + kb,
                        back,
                        a,
                        1,
                        depth,
                    );
                    let frame3 = moved(frame, a, vars2, has_state2);
                    let kr = lemma_walk_while(
                        types,
                        limits,
                        w2,
                        frame3,
                        s,
                        (rounds - 1) as nat,
                        depth,
                    );
                    lemma_agrees_then(
                        types,
                        limits,
                        world,
                        frame,
                        back,
                        a,
                        1 + kb + 1,
                        walk_while(types, limits, w2, frame3, s, (rounds - 1) as nat, depth),
                        end,
                        kr,
                        depth,
                    );
                    1 + kb + 1 + kr
                },
                _ => 1 + kb,
            }
        },
    }
}

/// Running the code of an if-chain from its `i`th block on does what walking
/// the chain from there does.
#[verifier::spinoff_prover]
pub proof fn lemma_walk_chain<H: Flop>(
    types: TypesView,
    limits: Limits,
    world: World<H>,
    frame: Frame,
    s: Statement,
    i: int,
    base: int,
    rounds: nat,
    depth: nat,
) -> (k: nat)
    requires
        s is Branch,
        0 <= i <= s->if_branches@.len(),
        frame.code.len() <= isize::MAX,
        located(frame.code, base, lower_stmt(s)),
        frame.pc == base + block_start(
            guarded_blocks(s->if_branches@).push(lower(s->else_branch@)),
            i,
            0,
        ),
        !(walk_chain(types, limits, world, frame, s, i, rounds, depth) is Spent),
    ensures
        agrees(
            types,
            limits,
            world,
            frame,
            walk_chain(types, limits, world, frame, s, i, rounds, depth),
            base + lower_stmt(s).len(),
            k,
            depth,
        ),
    decreases rounds, s, 0int, s->if_branches@.len() - i,
{
    let if_branches = s->if_branches;
    let else_branch = s->else_branch;
    let n = if_branches@.len() as int;
    let blocks = guarded_blocks(if_branches@).push(lower(else_branch@));
    let count = blocks.len() as int;
    let code = lower_stmt(s);
    let total = block_start(blocks, count, 0);
    let end = base + code.len();
    let a = frame.pc as int;
    lemma_link_len(blocks, count, 0);
    lemma_link_layout(blocks, count, 0, i);
    lemma_block_start(blocks, i + 1, count, 0);
    lemma_block_start(blocks, 0, i, 0);
    let at = block_start(blocks, i, 0);
    let block = blocks[i];
    assert(located(frame.code, a, block)) by {
        assert forall|t: int| 0 <= t < block.len() implies frame.code[a + t] == #[trigger] block[t] by {
            assert(code[at + t] == block[t]);
            assert(frame.code[base + (at + t)] == code[at + t]);
        }
    }
    let skip = (total - block_start(blocks, i + 1, 0) + 1) as isize;
    let closing = a + block.len();
    assert(frame.code[closing] == StatementView::Jump(skip)) by {
        assert(frame.code[base + (at + block.len())] == code[at + block.len()]);
    }
    assert(closing + skip == end);
    if i >= n {
        lemma_block_then_jump(types, limits, world, frame, else_branch@, skip, end, rounds, depth)
    } else {
        let condition = if_branches@[i].0;
        let body = lower(if_branches@[i].1@);
        let len = body.len() as int;
        assert(block.len() == len + 1);
        assert(frame.code[a + 0] == block[0]);
        assert(located(frame.code, a + 1, body)) by {
            assert forall|t: int| 0 <= t < body.len() implies frame.code[a + 1 + t]
                == #[trigger] body[t] by {
                assert(frame.code[a + (1 + t)] == block[1 + t]);
            }
        }
        lemma_branch_step(types, limits, world, frame, condition, len + 2, depth);
        match decide(types, limits, world, frame, condition, depth) {
            Err(e) => 1,
            Ok((w, vars, true)) => {
                let head = Walked::Through(w, vars, frame.has_state);
                let frame1 = moved(frame, a + 1, vars, frame.has_state);
                let kb = lemma_block_then_jump(
                    types,
                    limits,
                    w,
                    frame1,
                    if_branches@[i].1@,
                    skip,
                    end,
                    rounds,
                    depth,
                );
                lemma_agrees_then(
                    types,
                    limits,
                    world,
                    frame,
                    head,
                    a + 1,
                    1,
                    walk_list(types, limits, w, frame1, if_branches@[i].1@, 0, rounds, depth),
                    end,
                    kb,
                    depth,
                );
                1 + kb
            },
            Ok((w, vars, false)) => {
                let head = Walked::Through(w, vars, frame.has_state);
                let frame1 = moved(frame, a + len + 2, vars, frame.has_state);
                let kr = lemma_walk_chain(
                    types,
                    limits,
                    w,
                    frame1,
                    s,
                    i + 1,
                    base,
                    rounds,
                    depth,
                );
                lemma_agrees_then(
                    types,
                    limits,
                    world,
                    frame,
                    head,
                    a + len + 2,
                    1,
                    walk_chain(types, limits, w, frame1, s, i + 1, rounds, depth),
                    end,
                    kr,
                    depth,
                );
                1 + kr
            },
        }
    }
}

/// The statements of the `b`th block of a match: of an arm, or of the
/// default behind the arms.
pub open spec fn match_block(s: Statement, b: int) -> Seq<Statement> {
    if 0 <= b < s->arms@.len() {
        s->arms@[b].2@
    } else {
        s->def@
    }
}

/// The table of a pattern branch holds, for each tag, the last arm that has
/// it.
pub proof fn lemma_arm_lookup(
    arms: Seq<(String, Vec<String>, Vec<Statement>)>,
    n: int,
    blocks: Seq<Seq<StatementView>>,
    tag: Seq<char>,
)
    requires
        0 <= n <= arms.len(),
    ensures
        match last_arm(arms, n, tag) {
            Some(j) => 0 <= j < n && dict_get(arm_table(arms, n, blocks), tag) == Some(
                ArmView {
                    fields: names_view(arms[j].1@),
                    offset: block_start(blocks, j, 1) as usize,
                },
            ),
            None => dict_get(arm_table(arms, n, blocks), tag) is None,
        },
    decreases n,
{
    if n > 0 {
        lemma_arm_lookup(arms, n - 1, blocks, tag);
        lemma_insert_get(
            arm_table(arms, n - 1, blocks),
            arms[n - 1].0@,
            ArmView {
                fields: names_view(arms[n - 1].1@),
                offset: block_start(blocks, n - 1, 1) as usize,
            },
            tag,
        );
    }
}

/// Where the blocks of a match stand in its code: each block at its start,
/// and behind it a jump that leads behind the match.
pub proof fn lemma_match_layout(code: Seq<StatementView>, base: int, s: Statement, b: int)
    requires
        s is Match,
        0 <= b <= s->arms@.len(),
        code.len() <= isize::MAX,
        located(code, base, lower_stmt(s)),
    ensures
        ({
            let blocks = arm_blocks(s->arms@).push(lower(s->def@));
            let start = base + block_start(blocks, b, 1);
            let closing = start + lower(match_block(s, b)).len();
            &&& base < start
            &&& located(code, start, lower(match_block(s, b)))
            &&& closing < code.len()
            &&& code[closing] is Jump
            &&& closing + code[closing]->Jump_0 == base + lower_stmt(s).len()
        }),
{
    let arms = s->arms;
    let def = s->def;
    let blocks = arm_blocks(arms@).push(lower(def@));
    let count = blocks.len() as int;
    let whole = lower_stmt(s);
    let linked = link(blocks, 1);
    let total = block_start(blocks, count, 1);
    lemma_link_len(blocks, count, 1);
    lemma_link_layout(blocks, count, 1, b);
    lemma_block_start(blocks, b + 1, count, 1);
    lemma_block_start(blocks, 0, b, 1);
    let at = block_start(blocks, b, 1) - 1;
    let block = blocks[b];
    let start = base + block_start(blocks, b, 1);
    assert(block == lower(match_block(s, b)));
    assert(whole.len() == 1 + linked.len());
    assert forall|t: int| 0 <= t < block.len() implies code[start + t] == #[trigger] block[t] by {
        assert(linked[at + t] == block[t]);
        assert(whole[1 + (at + t)] == linked[at + t]);
        assert(code[base + (1 + at + t)] == whole[1 + at + t]);
    }
    let last = block.len() as int;
    assert(whole[1 + (at + last)] == linked[at + last]);
    assert(code[base + (1 + at + last)] == whole[1 + at + last]);
}

/// Running a block of a match and the jump that closes it does what walking
/// the block does, and ends behind the match.
pub proof fn lemma_match_block<H: Flop>(
    types: TypesView,
    limits: Limits,
    world: World<H>,
    frame: Frame,
    s: Statement,
    b: int,
    base: int,
    rounds: nat,
    depth: nat,
) -> (k: nat)
    requires
        s is Match,
        0 <= b <= s->arms@.len(),
        frame.code.len() <= isize::MAX,
        located(frame.code, base, lower_stmt(s)),
        frame.pc == base + block_start(arm_blocks(s->arms@).push(lower(s->def@)), b, 1),
        !(walk_list(types, limits, world, frame, match_block(s, b), 0, rounds, depth) is Spent),
    ensures
        agrees(
            types,
            limits,
            world,
            frame,
            walk_list(types, limits, world, frame, match_block(s, b), 0, rounds, depth),
            base + lower_stmt(s).len(),
            k,
            depth,
        ),
    decreases rounds, s, 0int, 0int,
{
    lemma_match_layout(frame.code, base, s, b);
    let stmts = match_block(s, b);
    let closing = frame.pc + lower(stmts).len();
    lemma_block_then_jump(
        types,
        limits,
        world,
        frame,
        stmts,
        frame.code[closing]->Jump_0,
        base + lower_stmt(s).len(),
        rounds,
        depth,
    )
}

/// Running the code of a match does what walking the match does.
#[verifier::spinoff_prover]
pub proof fn lemma_walk_match<H: Flop>(
    types: TypesView,
    limits: Limits,
    world: World<H>,
    frame: Frame,
    s: Statement,
    rounds: nat,
    depth: nat,
) -> (k: nat)
    requires
        s is Match,
        frame.code.len() <= isize::MAX,
        located(frame.code, frame.pc as int, lower_stmt(s)),
        !(walk_match(types, limits, world, frame, s, rounds, depth) is Spent),
    ensures
        agrees(
            types,
            limits,
            world,
            frame,
            walk_match(types, limits, world, frame, s, rounds, depth),
            frame.pc + lower_stmt(s).len(),
            k,
            depth,
        ),
    decreases rounds, s, 0int, 1int,
{
    let data = s->data;
    let arms = s->arms;
    let def = s->def;
    let n = arms@.len() as int;
    let blocks = arm_blocks(arms@).push(lower(def@));
    let count = blocks.len() as int;
    let code = lower_stmt(s);
    let a = frame.pc as int;
    let end = a + code.len();
    lemma_link_len(blocks, count, 1);
    assert(frame.code[a + 0] == code[0]);
    let r = single(eval(types, limits, world, frame.vars, frame.object, lower_expr(data), depth));
    assert(frame.pc < frame.code.len());
    lemma_one_step(types, limits, world, frame, depth);
    reveal(perform);
    reveal(step_pattern);
    match r.result {
        Err(f) => 1,
        Ok(vals) => match vals[0] {
            FieldView::Data(tag, record) => {
                lemma_arm_lookup(arms@, n, blocks, tag);
                match last_arm(arms@, n, tag) {
                    None => {
                        lemma_block_start(blocks, n, count, 1);
                        lemma_block_start(blocks, 0, n, 1);
                        let start = a + block_start(blocks, n, 1);
                        let head = Walked::Through(r.world, r.vars, frame.has_state);
                        let frame1 = moved(frame, start, r.vars, frame.has_state);
                        assert(match_block(s, n) == def@);
                        let kb = lemma_match_block(
                            types,
                            limits,
                            r.world,
                            frame1,
                            s,
                            n,
                            a,
                            rounds,
                            depth,
                        );
                        lemma_agrees_then(
                            types,
                            limits,
                            world,
                            frame,
                            head,
                            start,
                            1,
                            walk_list(types, limits, r.world, frame1, def@, 0, rounds, depth),
                            end,
                            kb,
                            depth,
                        );
                        1 + kb
                    },
                    Some(j) => {
                        lemma_block_start(blocks, j, count, 1);
                        lemma_block_start(blocks, 0, j, 1);
                        match destructure(names_view(arms@[j].1@), 0, record, r.vars) {
                            Err(f) => 1,
                            Ok(bound) => {
                                let start = a + block_start(blocks, j, 1);
                                let head = Walked::Through(r.world, bound, frame.has_state);
                                let frame1 = moved(frame, start, bound, frame.has_state);
                                assert(match_block(s, j) == arms@[j].2@);
                                let kb = lemma_match_block(
                                    types,
                                    limits,
                                    r.world,
                                    frame1,
                                    s,
                                    j,
                                    a,
                                    rounds,
                                    depth,
                                );
                                lemma_agrees_then(
                                    types,
                                    limits,
                                    world,
                                    frame,
                                    head,
                                    start,
                                    1,
                                    walk_list(
                                        types,
                                        limits,
                                        r.world,
                                        frame1,
                                        arms@[j].2@,
                                        0,
                                        rounds,
                                        depth,
                                    ),
                                    end,
                                    kb,
                                    depth,
                                );
                                1 + kb
                            },
                        }
                    },
                }
            },
            _ => 1,
        },
    }
}

/// Lowering keeps the meaning of an algorithm: running the instructions
/// that its statements lower to does what walking the statements does. With
/// the steps that the walk takes and any more, the activation comes to what
/// the walk came to: the same fault, the same exit, or, where the statements
/// ran through, the end of the code in the same world, with the same
/// variables and the same flag, where it leaves as the flag says.
pub proof fn law_lowering_keeps_meaning<H: Flop>(
    types: TypesView,
    limits: Limits,
    world: World<H>,
    frame: Frame,
    stmts: Seq<Statement>,
    rounds: nat,
    depth: nat,
) -> (k: nat)
    requires
        frame.code == lower(stmts),
        frame.code.len() <= isize::MAX,
        frame.pc == 0,
        !(walk_list(types, limits, world, frame, stmts, 0, rounds, depth) is Spent),
    ensures
        agrees(
            types,
            limits,
            world,
            frame,
            walk_list(types, limits, world, frame, stmts, 0, rounds, depth),
            frame.code.len() as int,
            k,
            depth,
        ),
        forall|steps: nat|
            steps >= k ==> #[trigger] run(types, limits, world, frame, steps, depth) == (
            match walk_list(types, limits, world, frame, stmts, 0, rounds, depth) {
                Walked::Through(w, vars, has_state) => leave(
                    w,
                    has_state,
                    AlgorithmResultView::ReturnVals(Seq::empty()),
                ),
                Walked::Exit(w, has_state, result) => leave(w, has_state, result),
                Walked::Fault(w, f) => Ran { world: w, result: Err(f) },
                Walked::Spent => Ran { world: arbitrary(), result: Err(Fault::LimitReached) },
            }),
{
    let k = lemma_walk_list(types, limits, world, frame, stmts, 0, rounds, depth);
    let walked = walk_list(types, limits, world, frame, stmts, 0, rounds, depth);
    assert forall|steps: nat| steps >= k implies #[trigger] run(
        types,
        limits,
        world,
        frame,
        steps,
        depth,
    ) == (match walked {
        Walked::Through(w, vars, has_state) => leave(
            w,
            has_state,
            AlgorithmResultView::ReturnVals(Seq::empty()),
        ),
        Walked::Exit(w, has_state, result) => leave(w, has_state, result),
        Walked::Fault(w, f) => Ran { world: w, result: Err(f) },
        Walked::Spent => Ran { world: arbitrary(), result: Err(Fault::LimitReached) },
    }) by {
        reveal(run);
    }
    k
}

} // verus!
