//! The frame law: algorithms change the store only through its own
//! operations, so whatever those operations keep, every call keeps.

use vstd::prelude::*;
use crate::ast::CompareOp;
use crate::data::{DataView, FieldView, Members, Num, Object, OutputView, TotemView};
use crate::event::Time;
use crate::instance::Flop;
use crate::item::{algorithm, algorithm_name, TypesView};
use crate::prelude::{dict_get, dict_insert, dict_remove, Entries, Fault};
use crate::runtime::{ExpressionView, StatementView, TablePathView};
use crate::semantics::{
    begin_wait, bind, call, construct, dead_code_warning, eval, eval_arith, eval_chain,
    eval_comparison, eval_data, eval_exec_object, eval_extern_call, eval_fields,
    eval_init_object, eval_list, eval_virtualize, goto, init, invoke, iterate, jump, leave, next,
    listed, perform, resume, run, single, sole, step, step_branch, step_debug_nums, step_evaluate,
    step_iterate, step_pattern, step_return, step_set_add, step_set_remove, step_state,
    step_wait, AlgorithmResultView, Called, Constructed, Evaluated, Frame, Limits, Ran, Start,
    Stepped, World,
};

verus! {

/// A property of stores.
pub type Property = spec_fn(TotemView) -> bool;

/// Whether every operation by which algorithms change the store keeps the
/// property `inv`: writing a line, making a fresh object, and, on an object
/// of the store, setting and clearing its state, cancelling its wake-up
/// and putting one in.
pub open spec fn kept_by_store(inv: Property) -> bool {
    &&& forall|t: TotemView, line: OutputView| inv(t) ==> #[trigger] inv(t.emit(line))
    &&& forall|t: TotemView, object_type: Seq<char>|
        inv(t) ==> #[trigger] inv(t.with_fresh(object_type))
    &&& forall|t: TotemView, x: Object, name: Seq<char>, data: DataView|
        inv(t) && t.has(x) ==> #[trigger] inv(t.set_state(x, name, data))
    &&& forall|t: TotemView, x: Object| inv(t) && t.has(x) ==> #[trigger] inv(t.clear_state(x))
    &&& forall|t: TotemView, x: Object| inv(t) && t.has(x) ==> #[trigger] inv(t.cancel_pending(x))
    &&& forall|t: TotemView, x: Object, action_name: Seq<char>, pc: usize, time: Time|
        inv(t) && t.has(x) && t.queue.next_id < usize::MAX ==> #[trigger] inv(
            t.schedule(x, action_name, pc, time),
        )
}

/// Whether the property holds of the later store, which has every object of
/// the earlier one.
pub open spec fn carried(inv: Property, before: TotemView, after: TotemView) -> bool {
    inv(after) && before.objects.len() <= after.objects.len()
}

/// The world in which an instruction ended.
pub open spec fn step_world<H>(s: Stepped<H>) -> World<H> {
    match s {
        Stepped::Next(w, pc, vars, flag) => w,
        Stepped::Exit(w, flag, result) => w,
        Stepped::Fault(w, f) => w,
    }
}

/// The beginning of a wait keeps what the store's operations keep.
pub proof fn lemma_begin_wait<H: Flop>(
    inv: Property,
    world: World<H>,
    object: Object,
    action_name: Seq<char>,
    val: FieldView,
    resume: usize,
)
    requires
        kept_by_store(inv),
        inv(world.totem),
        world.totem.has(object),
    ensures
        match begin_wait(world, object, action_name, val, resume) {
            Ok(w) => carried(inv, world.totem, w.totem),
            Err(e) => carried(inv, world.totem, e.0.totem),
        },
{
}

/// An evaluation keeps what the store's operations keep.
#[verifier::spinoff_prover]
pub proof fn lemma_eval<H: Flop>(
    inv: Property,
    types: TypesView,
    limits: Limits,
    world: World<H>,
    vars: DataView,
    object: Object,
    e: ExpressionView,
    depth: nat,
)
    requires
        kept_by_store(inv),
        inv(world.totem),
        world.totem.has(object),
    ensures
        carried(inv, world.totem, eval(types, limits, world, vars, object, e, depth).world.totem),
    decreases 6 * depth + 1, 0int, e, 1int,
{
    reveal(eval);
    match e {
        ExpressionView::InitObject { .. } => lemma_eval_init_object(
            inv,
            types,
            limits,
            world,
            vars,
            object,
            e,
            depth,
        ),
        ExpressionView::ExecObject { .. } => lemma_eval_exec_object(
            inv,
            types,
            limits,
            world,
            vars,
            object,
            e,
            depth,
        ),
        ExpressionView::ExternCall { .. } => lemma_eval_extern_call(
            inv,
            types,
            limits,
            world,
            vars,
            object,
            e,
            depth,
        ),
        ExpressionView::VirtualizeObject { .. } => lemma_eval_virtualize(
            inv,
            types,
            limits,
            world,
            vars,
            object,
            e,
            depth,
        ),
        ExpressionView::Data { .. } => lemma_eval_data(
            inv,
            types,
            limits,
            world,
            vars,
            object,
            e,
            depth,
        ),
        ExpressionView::Comparison(_, _) => lemma_eval_comparison(inv, types, limits, world, vars, object, e, depth),
        ExpressionView::Arith(_, _, _) => lemma_eval_arith(inv, types, limits, world, vars, object, e, depth),
        _ => {},
    }
}

/// A construction inside an expression keeps what the store's operations
/// keep.
#[verifier::spinoff_prover]
pub proof fn lemma_eval_init_object<H: Flop>(
    inv: Property,
    types: TypesView,
    limits: Limits,
    world: World<H>,
    vars: DataView,
    object: Object,
    e: ExpressionView,
    depth: nat,
)
    requires
        kept_by_store(inv),
        inv(world.totem),
        world.totem.has(object),
    ensures
        carried(
            inv,
            world.totem,
            eval_init_object(types, limits, world, vars, object, e, depth).world.totem,
        ),
    decreases 6 * depth + 1, 0int, e, 0int,
{
    reveal(eval_init_object);
    match e {
        ExpressionView::InitObject { object_type, table_name, init_name, args } => {
            let a = eval_list(types, limits, world, vars, object, args, 0, Seq::empty(), depth);
            lemma_eval_list(inv, types, limits, world, vars, object, args, 0, Seq::empty(), depth);
            match a.result {
                Err(_) => {},
                Ok(vals) => match algorithm_name(types, object_type, table_name, init_name) {
                    None => {},
                    Some(alg_name) => if depth > 0 {
                        lemma_construct(
                            inv,
                            types,
                            limits,
                            a.world,
                            object_type,
                            alg_name,
                            vals,
                            (depth - 1) as nat,
                        );
                    },
                },
            }
        },
        _ => {},
    }
}

/// A method call inside an expression keeps what the store's operations keep.
#[verifier::spinoff_prover]
pub proof fn lemma_eval_exec_object<H: Flop>(
    inv: Property,
    types: TypesView,
    limits: Limits,
    world: World<H>,
    vars: DataView,
    object: Object,
    e: ExpressionView,
    depth: nat,
)
    requires
        kept_by_store(inv),
        inv(world.totem),
        world.totem.has(object),
    ensures
        carried(
            inv,
            world.totem,
            eval_exec_object(types, limits, world, vars, object, e, depth).world.totem,
        ),
    decreases 6 * depth + 1, 0int, e, 0int,
{
    reveal(eval_exec_object);
    match e {
        ExpressionView::ExecObject { object_name, action_name, args } => {
            let a = eval_list(types, limits, world, vars, object, args, 0, Seq::empty(), depth);
            lemma_eval_list(inv, types, limits, world, vars, object, args, 0, Seq::empty(), depth);
            match a.result {
                Err(_) => {},
                Ok(vals) => match dict_get(a.vars, object_name) {
                    None => if depth > 0 {
                        lemma_construct(
                            inv,
                            types,
                            limits,
                            a.world,
                            object_name,
                            action_name,
                            vals,
                            (depth - 1) as nat,
                        );
                    },
                    Some(FieldView::TRef(target)) => {
                        lemma_invoke(
                            inv,
                            types,
                            limits,
                            a.world,
                            target,
                            None,
                            action_name,
                            vals,
                            depth,
                        );
                    },
                    Some(FieldView::VRef(r)) => {
                        lemma_invoke(
                            inv,
                            types,
                            limits,
                            a.world,
                            r.data,
                            Some(r.table),
                            action_name,
                            vals,
                            depth,
                        );
                    },
                    Some(_) => {},
                },
            }
        },
        _ => {},
    }
}

/// A call of the host keeps what the store's operations keep.
#[verifier::spinoff_prover]
pub proof fn lemma_eval_extern_call<H: Flop>(
    inv: Property,
    types: TypesView,
    limits: Limits,
    world: World<H>,
    vars: DataView,
    object: Object,
    e: ExpressionView,
    depth: nat,
)
    requires
        kept_by_store(inv),
        inv(world.totem),
        world.totem.has(object),
    ensures
        carried(
            inv,
            world.totem,
            eval_extern_call(types, limits, world, vars, object, e, depth).world.totem,
        ),
    decreases 6 * depth + 1, 0int, e, 0int,
{
    reveal(eval_extern_call);
    match e {
        ExpressionView::ExternCall { function_name, args } => {
            lemma_eval_list(inv, types, limits, world, vars, object, args, 0, Seq::empty(), depth);
        },
        _ => {},
    }
}

/// Binding an object to an interface keeps what the store's operations keep.
#[verifier::spinoff_prover]
pub proof fn lemma_eval_virtualize<H: Flop>(
    inv: Property,
    types: TypesView,
    limits: Limits,
    world: World<H>,
    vars: DataView,
    object: Object,
    e: ExpressionView,
    depth: nat,
)
    requires
        kept_by_store(inv),
        inv(world.totem),
        world.totem.has(object),
    ensures
        carried(
            inv,
            world.totem,
            eval_virtualize(types, limits, world, vars, object, e, depth).world.totem,
        ),
    decreases 6 * depth + 1, 0int, e, 0int,
{
    reveal(eval_virtualize);
    match e {
        ExpressionView::VirtualizeObject { interface_name, object: inner } => {
            lemma_eval(inv, types, limits, world, vars, object, *inner, depth);
        },
        _ => {},
    }
}

/// A record constructor keeps what the store's operations keep.
#[verifier::spinoff_prover]
pub proof fn lemma_eval_data<H: Flop>(
    inv: Property,
    types: TypesView,
    limits: Limits,
    world: World<H>,
    vars: DataView,
    object: Object,
    e: ExpressionView,
    depth: nat,
)
    requires
        kept_by_store(inv),
        inv(world.totem),
        world.totem.has(object),
    ensures
        carried(
            inv,
            world.totem,
            eval_data(types, limits, world, vars, object, e, depth).world.totem,
        ),
    decreases 6 * depth + 1, 0int, e, 0int,
{
    reveal(eval_data);
    match e {
        ExpressionView::Data { name, fields } => {
            lemma_eval_fields(
                inv,
                types,
                limits,
                world,
                vars,
                object,
                fields,
                0,
                Seq::empty(),
                depth,
            );
        },
        _ => {},
    }
}

/// A comparison chain keeps what the store's operations keep.
#[verifier::spinoff_prover]
pub proof fn lemma_eval_comparison<H: Flop>(
    inv: Property,
    types: TypesView,
    limits: Limits,
    world: World<H>,
    vars: DataView,
    object: Object,
    e: ExpressionView,
    depth: nat,
)
    requires
        kept_by_store(inv),
        inv(world.totem),
        world.totem.has(object),
    ensures
        carried(
            inv,
            world.totem,
            eval_comparison(types, limits, world, vars, object, e, depth).world.totem,
        ),
    decreases 6 * depth + 1, 0int, e, 0int,
{
    reveal(eval_comparison);
    match e {
        ExpressionView::Comparison(first, links) => {
            lemma_eval(inv, types, limits, world, vars, object, *first, depth);
            let r = single(eval(types, limits, world, vars, object, *first, depth));
            match r.result {
                Err(_) => {},
                Ok(vals) => match vals[0] {
                    FieldView::Num(x) => {
                        lemma_eval_chain(
                            inv,
                            types,
                            limits,
                            r.world,
                            r.vars,
                            object,
                            x,
                            links,
                            0,
                            depth,
                        );
                    },
                    _ => {},
                },
            }
        },
        _ => {},
    }
}

/// An arithmetic operation keeps what the store's operations keep.
#[verifier::spinoff_prover]
pub proof fn lemma_eval_arith<H: Flop>(
    inv: Property,
    types: TypesView,
    limits: Limits,
    world: World<H>,
    vars: DataView,
    object: Object,
    e: ExpressionView,
    depth: nat,
)
    requires
        kept_by_store(inv),
        inv(world.totem),
        world.totem.has(object),
    ensures
        carried(
            inv,
            world.totem,
            eval_arith(types, limits, world, vars, object, e, depth).world.totem,
        ),
    decreases 6 * depth + 1, 0int, e, 0int,
{
    reveal(eval_arith);
    match e {
        ExpressionView::Arith(op, left, right) => {
            lemma_eval(inv, types, limits, world, vars, object, *left, depth);
            let a = single(eval(types, limits, world, vars, object, *left, depth));
            match a.result {
                Err(_) => {},
                Ok(avals) => match avals[0] {
                    FieldView::Num(x) => {
                        lemma_eval(inv, types, limits, a.world, a.vars, object, *right, depth);
                    },
                    _ => {},
                },
            }
        },
        _ => {},
    }
}

/// A list of expressions keeps what the store's operations keep.
#[verifier::spinoff_prover]
pub proof fn lemma_eval_list<H: Flop>(
    inv: Property,
    types: TypesView,
    limits: Limits,
    world: World<H>,
    vars: DataView,
    object: Object,
    exprs: Seq<ExpressionView>,
    i: int,
    acc: Seq<FieldView>,
    depth: nat,
)
    requires
        kept_by_store(inv),
        inv(world.totem),
        world.totem.has(object),
    ensures
        carried(
            inv,
            world.totem,
            eval_list(types, limits, world, vars, object, exprs, i, acc, depth).world.totem,
        ),
    decreases 6 * depth + 1, 0int, exprs, exprs.len() - i,
{
    reveal(eval_list);
    if 0 <= i < exprs.len() {
        lemma_eval(inv, types, limits, world, vars, object, exprs[i], depth);
        let r = eval(types, limits, world, vars, object, exprs[i], depth);
        match r.result {
            Err(_) => {},
            Ok(vals) => {
                lemma_eval_list(
                    inv,
                    types,
                    limits,
                    r.world,
                    r.vars,
                    object,
                    exprs,
                    i + 1,
                    acc + vals,
                    depth,
                );
            },
        }
    }
}

/// The fields of a record keep what the store's operations keep.
#[verifier::spinoff_prover]
pub proof fn lemma_eval_fields<H: Flop>(
    inv: Property,
    types: TypesView,
    limits: Limits,
    world: World<H>,
    vars: DataView,
    object: Object,
    fields: Entries<ExpressionView>,
    i: int,
    acc: DataView,
    depth: nat,
)
    requires
        kept_by_store(inv),
        inv(world.totem),
        world.totem.has(object),
    ensures
        carried(
            inv,
            world.totem,
            eval_fields(types, limits, world, vars, object, fields, i, acc, depth).0.world.totem,
        ),
    decreases 6 * depth + 1, 0int, fields, fields.len() - i,
{
    reveal(eval_fields);
    if 0 <= i < fields.len() {
        lemma_eval(inv, types, limits, world, vars, object, fields[i].1, depth);
        let r = single(eval(types, limits, world, vars, object, fields[i].1, depth));
        match r.result {
            Err(_) => {},
            Ok(vals) => {
                let next_acc = dict_insert(acc, fields[i].0, vals[0]);
                lemma_eval_fields(
                    inv,
                    types,
                    limits,
                    r.world,
                    r.vars,
                    object,
                    fields,
                    i + 1,
                    next_acc,
                    depth,
                );
            },
        }
    }
}

/// The links of a comparison chain keep what the store's operations keep.
#[verifier::spinoff_prover]
pub proof fn lemma_eval_chain<H: Flop>(
    inv: Property,
    types: TypesView,
    limits: Limits,
    world: World<H>,
    vars: DataView,
    object: Object,
    x: Num,
    links: Seq<(CompareOp, ExpressionView)>,
    i: int,
    depth: nat,
)
    requires
        kept_by_store(inv),
        inv(world.totem),
        world.totem.has(object),
    ensures
        carried(
            inv,
            world.totem,
            eval_chain(types, limits, world, vars, object, x, links, i, depth).world.totem,
        ),
    decreases 6 * depth + 1, 0int, links, links.len() - i,
{
    reveal(eval_chain);
    if 0 <= i < links.len() {
        lemma_eval(inv, types, limits, world, vars, object, links[i].1, depth);
        let r = single(eval(types, limits, world, vars, object, links[i].1, depth));
        match r.result {
            Err(_) => {},
            Ok(vals) => match vals[0] {
                FieldView::Num(y) => if H::compare_model(links[i].0, x, y) {
                    lemma_eval_chain(
                        inv,
                        types,
                        limits,
                        r.world,
                        r.vars,
                        object,
                        y,
                        links,
                        i + 1,
                        depth,
                    );
                },
                _ => {},
            },
        }
    }
}

/// A method call keeps what the store's operations keep.
#[verifier::spinoff_prover]
pub proof fn lemma_invoke<H: Flop>(
    inv: Property,
    types: TypesView,
    limits: Limits,
    world: World<H>,
    target: Object,
    table: Option<Seq<char>>,
    action_name: Seq<char>,
    vals: Seq<FieldView>,
    depth: nat,
)
    requires
        kept_by_store(inv),
        inv(world.totem),
    ensures
        carried(
            inv,
            world.totem,
            invoke(types, limits, world, target, table, action_name, vals, depth).world.totem,
        ),
    decreases 6 * depth, 0int,
{
    reveal(invoke);
    if world.totem.has(target) {
        let object_type = world.totem.objects[target as int].object_type;
        let alg_name = match table {
            Some(t) => algorithm_name(types, object_type, t, action_name),
            None => Some(action_name),
        };
        match alg_name {
            None => {},
            Some(name) => match algorithm(types, object_type, name) {
                None => {},
                Some(alg) => if depth > 0 {
                    lemma_call(
                        inv,
                        types,
                        limits,
                        world,
                        Start {
                            object: target,
                            action_name: name,
                            vars: bind(alg.param_list, vals),
                            pc: 0,
                            has_state: true,
                        },
                        limits.steps as nat,
                        (depth - 1) as nat,
                    );
                },
            },
        }
    }
}

/// A construction keeps what the store's operations keep.
#[verifier::spinoff_prover]
pub proof fn lemma_construct<H: Flop>(
    inv: Property,
    types: TypesView,
    limits: Limits,
    world: World<H>,
    object_type: Seq<char>,
    init_name: Seq<char>,
    args: Seq<FieldView>,
    depth: nat,
)
    requires
        kept_by_store(inv),
        inv(world.totem),
    ensures
        carried(
            inv,
            world.totem,
            construct(types, limits, world, object_type, init_name, args, depth).world.totem,
        ),
    decreases 6 * depth + 6, 0int,
{
    reveal(construct);
    let new = world.totem.objects.len() as Object;
    let made = World { totem: world.totem.with_fresh(object_type), host: world.host };
    match algorithm(types, object_type, init_name) {
        None => {},
        Some(alg) => {
            let start = Start {
                object: new,
                action_name: init_name,
                vars: bind(alg.param_list, args),
                pc: 0,
                has_state: false,
            };
            lemma_call(inv, types, limits, made, start, limits.steps as nat, depth);
        },
    }
}

/// A call keeps what the store's operations keep.
#[verifier::spinoff_prover]
pub proof fn lemma_call<H: Flop>(
    inv: Property,
    types: TypesView,
    limits: Limits,
    world: World<H>,
    start: Start,
    hops: nat,
    depth: nat,
)
    requires
        kept_by_store(inv),
        inv(world.totem),
    ensures
        carried(inv, world.totem, call(types, limits, world, start, hops, depth).world.totem),
    decreases 6 * depth + 5, hops,
{
    reveal(call);
    if hops > 0 && world.totem.has(start.object) {
        match algorithm(
            types,
            world.totem.objects[start.object as int].object_type,
            start.action_name,
        ) {
            None => {},
            Some(alg) => {
                let frame = Frame {
                    object: start.object,
                    action_name: start.action_name,
                    code: alg.steps,
                    pc: start.pc,
                    vars: start.vars,
                    has_state: start.has_state,
                };
                lemma_run(inv, types, limits, world, frame, limits.steps as nat, depth);
                let r = run(types, limits, world, frame, limits.steps as nat, depth);
                match r.result {
                    Ok(
                        AlgorithmResultView::ExternContinuation {
                            object,
                            action_name,
                            vars,
                            has_state,
                        },
                    ) => {
                        let then = Start { object, action_name, vars, pc: 0, has_state };
                        lemma_call(inv, types, limits, r.world, then, (hops - 1) as nat, depth);
                    },
                    _ => {},
                }
            },
        }
    }
}

/// An activation keeps what the store's operations keep.
#[verifier::spinoff_prover]
pub proof fn lemma_run<H: Flop>(
    inv: Property,
    types: TypesView,
    limits: Limits,
    world: World<H>,
    frame: Frame,
    steps: nat,
    depth: nat,
)
    requires
        kept_by_store(inv),
        inv(world.totem),
        world.totem.has(frame.object),
    ensures
        carried(inv, world.totem, run(types, limits, world, frame, steps, depth).world.totem),
    decreases 6 * depth + 4, steps,
{
    reveal(run);
    if frame.pc < frame.code.len() && steps > 0 {
        lemma_perform(inv, types, limits, world, frame, frame.code[frame.pc as int], depth);
        match step(types, limits, world, frame, depth) {
            Stepped::Next(w, pc, vars, has_state) => {
                let frame2 = Frame { pc, vars, has_state, ..frame };
                lemma_run(inv, types, limits, w, frame2, (steps - 1) as nat, depth);
            },
            _ => {},
        }
    }
}

/// Every instruction keeps what the store's operations keep.
#[verifier::spinoff_prover]
pub proof fn lemma_perform<H: Flop>(
    inv: Property,
    types: TypesView,
    limits: Limits,
    world: World<H>,
    frame: Frame,
    instr: StatementView,
    depth: nat,
)
    requires
        kept_by_store(inv),
        inv(world.totem),
        world.totem.has(frame.object),
    ensures
        carried(
            inv,
            world.totem,
            step_world(perform(types, limits, world, frame, instr, depth)).totem,
        ),
    decreases 6 * depth + 3, 1int,
{
    reveal(perform);
    match instr {
        StatementView::GotoAlg { table, alg_name, args } => lemma_goto(
            inv,
            types,
            limits,
            world,
            frame,
            table,
            alg_name,
            args,
            depth,
        ),
        StatementView::DebugNums(_) => lemma_step_values(inv, types, limits, world, frame, instr, depth),
        StatementView::Evaluate { .. } => lemma_step_values(
            inv,
            types,
            limits,
            world,
            frame,
            instr,
            depth,
        ),
        StatementView::Return(_) => lemma_step_values(inv, types, limits, world, frame, instr, depth),
        StatementView::State(_) => lemma_step_single(inv, types, limits, world, frame, instr, depth),
        StatementView::Wait(_) => lemma_step_single(inv, types, limits, world, frame, instr, depth),
        StatementView::Branch { .. } => lemma_step_single(
            inv,
            types,
            limits,
            world,
            frame,
            instr,
            depth,
        ),
        StatementView::PatternBranch { .. } => lemma_step_single(
            inv,
            types,
            limits,
            world,
            frame,
            instr,
            depth,
        ),
        StatementView::SetAdd { .. } => lemma_step_single(
            inv,
            types,
            limits,
            world,
            frame,
            instr,
            depth,
        ),
        StatementView::SetRemove { .. } => lemma_step_single(
            inv,
            types,
            limits,
            world,
            frame,
            instr,
            depth,
        ),
        StatementView::SetIterate { .. } => lemma_step_iterate(
            inv,
            types,
            limits,
            world,
            frame,
            instr,
            depth,
        ),
        _ => {},
    }
}

/// The instructions that evaluate a list keep what the store's operations
/// keep.
#[verifier::spinoff_prover]
pub proof fn lemma_step_values<H: Flop>(
    inv: Property,
    types: TypesView,
    limits: Limits,
    world: World<H>,
    frame: Frame,
    instr: StatementView,
    depth: nat,
)
    requires
        kept_by_store(inv),
        inv(world.totem),
        world.totem.has(frame.object),
        instr is DebugNums || instr is Evaluate || instr is Return,
    ensures
        carried(
            inv,
            world.totem,
            step_world(perform(types, limits, world, frame, instr, depth)).totem,
        ),
    decreases 6 * depth + 3, 0int,
{
    reveal(perform);
    reveal(step_debug_nums);
    reveal(step_evaluate);
    reveal(step_return);
    lemma_eval_list(
        inv,
        types,
        limits,
        world,
        frame.vars,
        frame.object,
        listed(instr),
        0,
        Seq::empty(),
        depth,
    );
    let r = eval_list(
        types,
        limits,
        world,
        frame.vars,
        frame.object,
        listed(instr),
        0,
        Seq::empty(),
        depth,
    );
    let next = frame.pc + 1;
    if instr is Return && r.result is Ok && next < frame.code.len() && frame.code[next] is Wait {
        let e = frame.code[next]->Wait_0;
        lemma_eval(inv, types, limits, r.world, r.vars, frame.object, e, depth);
        let t = single(eval(types, limits, r.world, r.vars, frame.object, e, depth));
        if t.result is Ok {
            lemma_begin_wait(
                inv,
                t.world,
                frame.object,
                frame.action_name,
                t.result->Ok_0[0],
                (next + 1) as usize,
            );
        }
    }
}

/// The instructions that evaluate one expression keep what the store's
/// operations keep.
#[verifier::spinoff_prover]
pub proof fn lemma_step_single<H: Flop>(
    inv: Property,
    types: TypesView,
    limits: Limits,
    world: World<H>,
    frame: Frame,
    instr: StatementView,
    depth: nat,
)
    requires
        kept_by_store(inv),
        inv(world.totem),
        world.totem.has(frame.object),
        instr is State || instr is Wait || instr is Branch || instr is PatternBranch
            || instr is SetAdd || instr is SetRemove,
    ensures
        carried(
            inv,
            world.totem,
            step_world(perform(types, limits, world, frame, instr, depth)).totem,
        ),
    decreases 6 * depth + 3, 0int,
{
    reveal(perform);
    reveal(step_state);
    reveal(step_wait);
    reveal(step_branch);
    reveal(step_pattern);
    reveal(step_set_add);
    reveal(step_set_remove);
    if !(instr is State && frame.has_state) {
        lemma_eval(inv, types, limits, world, frame.vars, frame.object, sole(instr), depth);
        let r = single(eval(types, limits, world, frame.vars, frame.object, sole(instr), depth));
        if instr is Wait && r.result is Ok {
            lemma_begin_wait(
                inv,
                r.world,
                frame.object,
                frame.action_name,
                r.result->Ok_0[0],
                (frame.pc + 1) as usize,
            );
        }
    }
}

/// A loop over a set keeps what the store's operations keep.
#[verifier::spinoff_prover]
pub proof fn lemma_step_iterate<H: Flop>(
    inv: Property,
    types: TypesView,
    limits: Limits,
    world: World<H>,
    frame: Frame,
    instr: StatementView,
    depth: nat,
)
    requires
        kept_by_store(inv),
        inv(world.totem),
        world.totem.has(frame.object),
        instr is SetIterate,
    ensures
        carried(
            inv,
            world.totem,
            step_world(perform(types, limits, world, frame, instr, depth)).totem,
        ),
    decreases 6 * depth + 3, 0int,
{
    reveal(perform);
    reveal(step_iterate);
    match instr {
        StatementView::SetIterate { var_name, set_name, break_offset } => match dict_get(
            frame.vars,
            set_name,
        ) {
            Some(FieldView::ObjectSet(s)) => {
                lemma_iterate(
                    inv,
                    types,
                    limits,
                    world,
                    frame,
                    var_name,
                    s,
                    0,
                    dict_remove(frame.vars, set_name),
                    depth,
                );
            },
            _ => {},
        },
        _ => {},
    }
}

/// The rounds of a loop keep what the store's operations keep.
#[verifier::spinoff_prover]
pub proof fn lemma_iterate<H: Flop>(
    inv: Property,
    types: TypesView,
    limits: Limits,
    world: World<H>,
    frame: Frame,
    var_name: Seq<char>,
    members: Members,
    k: int,
    vars: DataView,
    depth: nat,
)
    requires
        kept_by_store(inv),
        inv(world.totem),
        world.totem.has(frame.object),
    ensures
        carried(
            inv,
            world.totem,
            iterate(types, limits, world, frame, var_name, members, k, vars, depth).0.totem,
        ),
    decreases 6 * depth + 2, members.len() - k,
{
    reveal(iterate);
    if 0 <= k < members.len() && depth > 0 {
        let body = Frame {
            pc: (frame.pc + 1) as usize,
            vars: dict_insert(vars, var_name, FieldView::VRef(members[k])),
            ..frame
        };
        lemma_run(inv, types, limits, world, body, limits.steps as nat, (depth - 1) as nat);
        let r = run(types, limits, world, body, limits.steps as nat, (depth - 1) as nat);
        match r.result {
            Ok(AlgorithmResultView::ContinueLoop { vars: after }) => {
                lemma_iterate(
                    inv,
                    types,
                    limits,
                    r.world,
                    frame,
                    var_name,
                    members,
                    k + 1,
                    after,
                    depth,
                );
            },
            _ => {},
        }
    }
}

/// A tail dispatch keeps what the store's operations keep.
#[verifier::spinoff_prover]
pub proof fn lemma_goto<H: Flop>(
    inv: Property,
    types: TypesView,
    limits: Limits,
    world: World<H>,
    frame: Frame,
    table: TablePathView,
    alg_name: Seq<char>,
    args: Seq<ExpressionView>,
    depth: nat,
)
    requires
        kept_by_store(inv),
        inv(world.totem),
        world.totem.has(frame.object),
    ensures
        carried(
            inv,
            world.totem,
            step_world(goto(types, limits, world, frame, table, alg_name, args, depth)).totem,
        ),
    decreases 6 * depth + 2, 0int,
{
    reveal(goto);
    let next = frame.pc + 1;
    let waits = next < frame.code.len() && frame.code[next] is Wait;
    if waits {
        let e = frame.code[next]->Wait_0;
        lemma_eval(inv, types, limits, world, frame.vars, frame.object, e, depth);
        let r = single(eval(types, limits, world, frame.vars, frame.object, e, depth));
        if r.result is Ok {
            lemma_begin_wait(
                inv,
                r.world,
                frame.object,
                frame.action_name,
                r.result->Ok_0[0],
                (next + 1) as usize,
            );
        }
    }
    let waited: Result<(World<H>, DataView), (World<H>, Fault)> = if waits {
        let r = single(
            eval(types, limits, world, frame.vars, frame.object, frame.code[next]->Wait_0, depth),
        );
        match r.result {
            Err(f) => Err((r.world, f)),
            Ok(vals) => match begin_wait(
                r.world,
                frame.object,
                frame.action_name,
                vals[0],
                (next + 1) as usize,
            ) {
                Err(e) => Err(e),
                Ok(w) => Ok((w, r.vars)),
            },
        }
    } else if next < frame.code.len() {
        Ok(
            (
                World {
                    totem: world.totem.emit(OutputView::Text(dead_code_warning())),
                    host: world.host,
                },
                frame.vars,
            ),
        )
    } else {
        Ok((world, frame.vars))
    };
    match waited {
        Err(e) => {},
        Ok((w1, vars1)) => {
            assert(carried(inv, world.totem, w1.totem));
            match table {
                TablePathView::Virtual(name) => match dict_get(vars1, name) {
                    Some(FieldView::VRef(r)) => {
                        lemma_eval_list(
                            inv,
                            types,
                            limits,
                            w1,
                            vars1,
                            frame.object,
                            args,
                            0,
                            Seq::empty(),
                            depth,
                        );
                    },
                    _ => {},
                },
                TablePathView::Static(object_type, table_name) => {
                    let w2 = World { totem: w1.totem.with_fresh(object_type), host: w1.host };
                    lemma_eval_list(
                        inv,
                        types,
                        limits,
                        w2,
                        vars1,
                        frame.object,
                        args,
                        0,
                        Seq::empty(),
                        depth,
                    );
                },
            }
        },
    }
}

/// The frame law for a construction: it keeps every property of the store
/// that the store's operations keep.
pub proof fn law_construct_keeps<H: Flop>(
    inv: Property,
    types: TypesView,
    limits: Limits,
    world: World<H>,
    object_type: Seq<char>,
    table_name: Seq<char>,
    init_name: Seq<char>,
    args: Seq<FieldView>,
)
    requires
        kept_by_store(inv),
        inv(world.totem),
    ensures
        inv(init(types, limits, world, object_type, table_name, init_name, args).0.totem),
{
    match algorithm_name(types, object_type, table_name, init_name) {
        None => {},
        Some(alg_name) => {
            lemma_construct(
                inv,
                types,
                limits,
                world,
                object_type,
                alg_name,
                args,
                limits.depth as nat,
            );
        },
    }
}

/// The frame law for a call of a method from outside: it keeps every
/// property of the store that the store's operations keep.
pub proof fn law_invoke_keeps<H: Flop>(
    inv: Property,
    types: TypesView,
    limits: Limits,
    world: World<H>,
    target: Object,
    table: Option<Seq<char>>,
    action_name: Seq<char>,
    vals: Seq<FieldView>,
    depth: nat,
)
    requires
        kept_by_store(inv),
        inv(world.totem),
    ensures
        inv(invoke(types, limits, world, target, table, action_name, vals, depth).world.totem),
{
    lemma_invoke(inv, types, limits, world, target, table, action_name, vals, depth);
}

/// The frame law for a resumption: where the property holds once the bundle
/// of the object was taken out, the call that follows keeps it, if the
/// store's operations keep it.
pub proof fn law_resume_keeps<H: Flop>(
    inv: Property,
    types: TypesView,
    limits: Limits,
    world: World<H>,
    object: Object,
    action_name: Seq<char>,
    pc: usize,
)
    requires
        kept_by_store(inv),
        if world.totem.has(object) {
            inv(world.totem.take_data(object))
        } else {
            inv(world.totem)
        },
    ensures
        inv(resume(types, limits, world, object, action_name, pc).world.totem),
{
    if world.totem.has(object) {
        lemma_call(
            inv,
            types,
            limits,
            World { totem: world.totem.take_data(object), host: world.host },
            Start {
                object,
                action_name,
                vars: world.totem.objects[object as int].data,
                pc,
                has_state: false,
            },
            limits.steps as nat,
            limits.depth as nat,
        );
    }
}

} // verus!
