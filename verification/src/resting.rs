//! The resting-state invariant: a call that returns without a fault leaves
//! every object that it touched with a resting state.

use vstd::prelude::*;
use crate::ast::CompareOp;
use crate::data::{DataView, FieldView, Members, Num, Object, TotemView};
use crate::instance::Flop;
use crate::item::{algorithm, algorithm_name, TypesView};
use crate::prelude::{dict_get, dict_insert, dict_remove, Entries, Fault};
use crate::runtime::{ExpressionView, StatementView, TablePathView};
use crate::semantics::{
    begin_wait, bind, call, construct, eval, eval_arith, eval_chain, eval_comparison, eval_data,
    eval_exec_object, eval_extern_call, eval_fields, eval_init_object, eval_list,
    eval_virtualize, goto, init, invoke, iterate, jump, leave, listed, next, perform, pump,
    pump_many, resume, run, single, sole, step, step_branch, step_debug_nums, step_evaluate, step_iterate,
    step_pattern, step_return, step_set_add, step_set_remove, step_state, step_wait,
    AlgorithmResultView, Called, Constructed, Evaluated, Frame, Limits, Ran, Start, Stepped,
    World,
};

verus! {

/// Whether every object of the store holds a resting state.
pub open spec fn all_rest(t: TotemView) -> bool {
    forall|x: int| 0 <= x < t.objects.len() ==> (#[trigger] t.objects[x]).resting
}

/// Whether the store holds no more objects than a machine can count.
pub open spec fn fits(t: TotemView) -> bool {
    t.objects.len() <= usize::MAX
}

/// Whether `after` is settled with respect to `before`: no object is gone,
/// every object that rested still rests, and every new object rests. This
/// is asked only of a store that a machine can hold.
pub open spec fn settled(before: TotemView, after: TotemView) -> bool {
    fits(after) ==> {
        &&& before.objects.len() <= after.objects.len()
        &&& forall|x: int|
            0 <= x < before.objects.len() && before.objects[x].resting ==> (
            #[trigger] after.objects[x]).resting
        &&& forall|x: int|
            before.objects.len() <= x < after.objects.len() ==> (
            #[trigger] after.objects[x]).resting
    }
}

/// Whether an activation ended by handing over to the fresh object at `y`,
/// which its constructor has yet to give a state.
pub open spec fn handed_to(result: AlgorithmResultView, y: int) -> bool {
    result matches AlgorithmResultView::ExternContinuation { object, has_state, .. } && object == y
        && !has_state
}

/// Whether the store where an activation ended is settled, but for a fresh
/// object that the activation handed over to.
pub open spec fn exit_settled(before: TotemView, after: TotemView, result: AlgorithmResultView)
    -> bool {
    fits(after) ==> {
        &&& before.objects.len() <= after.objects.len()
        &&& forall|x: int|
            0 <= x < before.objects.len() && before.objects[x].resting ==> (
            #[trigger] after.objects[x]).resting
        &&& forall|x: int|
            before.objects.len() <= x < after.objects.len() ==> (
            #[trigger] after.objects[x]).resting || handed_to(result, x)
    }
}

/// What one instruction of an activation on `e` keeps: the other objects
/// that rested still rest and new ones rest; and where the activation goes
/// on with its flag set, `e` rests, unless the flag was set before while `e`
/// did not rest.
pub open spec fn step_settled<H>(before: TotemView, e: Object, flag: bool, s: Stepped<H>) -> bool {
    match s {
        Stepped::Next(w, pc, vars, flag2) => fits(w.totem) ==> {
            &&& before.objects.len() <= w.totem.objects.len()
            &&& forall|x: int|
                0 <= x < before.objects.len() && x != e && before.objects[x].resting ==> (
                #[trigger] w.totem.objects[x]).resting
            &&& forall|x: int|
                before.objects.len() <= x < w.totem.objects.len() ==> (
                #[trigger] w.totem.objects[x]).resting
            &&& flag2 ==> w.totem.objects[e as int].resting || (flag
                && !before.objects[e as int].resting)
        },
        Stepped::Exit(w, flag2, result) => flag2 == flag && exit_settled(before, w.totem, result),
        Stepped::Fault(w, f) => true,
    }
}

/// What an activation on `e` that ends without a fault leaves: a settled
/// store, but for a fresh object handed over to, in which `e` rests if the
/// activation began with its flag unset.
pub open spec fn run_settled<H>(before: TotemView, e: Object, flag: bool, r: Ran<H>) -> bool {
    r.result matches Ok(result) ==> exit_settled(before, r.world.totem, result) && (fits(
        r.world.totem,
    ) && !flag ==> r.world.totem.objects[e as int].resting)
}

/// Being settled carries on from store to store.
pub proof fn lemma_settled_then(a: TotemView, b: TotemView, c: TotemView)
    requires
        settled(a, b),
        settled(b, c),
    ensures
        settled(a, c),
{
    if fits(c) {
        assert forall|x: int| 0 <= x < a.objects.len() && a.objects[x].resting implies (
        #[trigger] c.objects[x]).resting by {
            assert(b.objects[x].resting);
        }
        assert forall|x: int| a.objects.len() <= x < c.objects.len() implies (
        #[trigger] c.objects[x]).resting by {
            if x < b.objects.len() {
                assert(b.objects[x].resting);
            }
        }
    }
}

/// An evaluation that gives values leaves a settled store.
#[verifier::spinoff_prover]
pub proof fn lemma_eval<H: Flop>(
    types: TypesView,
    limits: Limits,
    world: World<H>,
    vars: DataView,
    object: Object,
    e: ExpressionView,
    depth: nat,
)
    ensures
        eval(types, limits, world, vars, object, e, depth).result is Ok ==> settled(
            world.totem,
            eval(types, limits, world, vars, object, e, depth).world.totem,
        ),
    decreases 6 * depth + 1, 0int, e, 1int,
{
    reveal(eval);
    match e {
        ExpressionView::InitObject { .. } => lemma_eval_init_object(
            types,
            limits,
            world,
            vars,
            object,
            e,
            depth,
        ),
        ExpressionView::ExecObject { .. } => lemma_eval_exec_object(
            types,
            limits,
            world,
            vars,
            object,
            e,
            depth,
        ),
        ExpressionView::ExternCall { .. } => lemma_eval_extern_call(
            types,
            limits,
            world,
            vars,
            object,
            e,
            depth,
        ),
        ExpressionView::VirtualizeObject { .. } => lemma_eval_virtualize(
            types,
            limits,
            world,
            vars,
            object,
            e,
            depth,
        ),
        ExpressionView::Data { .. } => lemma_eval_data(
            types,
            limits,
            world,
            vars,
            object,
            e,
            depth,
        ),
        ExpressionView::Comparison(_, _) => lemma_eval_comparison(types, limits, world, vars, object, e, depth),
        ExpressionView::Arith(_, _, _) => lemma_eval_arith(types, limits, world, vars, object, e, depth),
        _ => {},
    }
}

/// A construction inside an expression leaves a settled store.
#[verifier::spinoff_prover]
pub proof fn lemma_eval_init_object<H: Flop>(
    types: TypesView,
    limits: Limits,
    world: World<H>,
    vars: DataView,
    object: Object,
    e: ExpressionView,
    depth: nat,
)
    ensures
        eval_init_object(types, limits, world, vars, object, e, depth).result is Ok ==> settled(
            world.totem,
            eval_init_object(types, limits, world, vars, object, e, depth).world.totem,
        ),
    decreases 6 * depth + 1, 0int, e, 0int,
{
    reveal(eval_init_object);
    match e {
        ExpressionView::InitObject { object_type, table_name, init_name, args } => {
            let a = eval_list(types, limits, world, vars, object, args, 0, Seq::empty(), depth);
            lemma_eval_list(types, limits, world, vars, object, args, 0, Seq::empty(), depth);
            match a.result {
                Err(_) => {},
                Ok(vals) => match algorithm_name(types, object_type, table_name, init_name) {
                    None => {},
                    Some(alg_name) => if depth > 0 {
                        lemma_construct(
                            types,
                            limits,
                            a.world,
                            object_type,
                            alg_name,
                            vals,
                            (depth - 1) as nat,
                        );
                        let c = construct(
                            types,
                            limits,
                            a.world,
                            object_type,
                            alg_name,
                            vals,
                            (depth - 1) as nat,
                        );
                        if c.result is Ok {
                            lemma_settled_then(world.totem, a.world.totem, c.world.totem);
                        }
                    },
                },
            }
        },
        _ => {},
    }
}

/// A method call inside an expression leaves a settled store.
#[verifier::spinoff_prover]
pub proof fn lemma_eval_exec_object<H: Flop>(
    types: TypesView,
    limits: Limits,
    world: World<H>,
    vars: DataView,
    object: Object,
    e: ExpressionView,
    depth: nat,
)
    ensures
        eval_exec_object(types, limits, world, vars, object, e, depth).result is Ok ==> settled(
            world.totem,
            eval_exec_object(types, limits, world, vars, object, e, depth).world.totem,
        ),
    decreases 6 * depth + 1, 0int, e, 0int,
{
    reveal(eval_exec_object);
    match e {
        ExpressionView::ExecObject { object_name, action_name, args } => {
            let a = eval_list(types, limits, world, vars, object, args, 0, Seq::empty(), depth);
            lemma_eval_list(types, limits, world, vars, object, args, 0, Seq::empty(), depth);
            match a.result {
                Err(_) => {},
                Ok(vals) => match dict_get(a.vars, object_name) {
                    None => if depth > 0 {
                        lemma_construct(
                            types,
                            limits,
                            a.world,
                            object_name,
                            action_name,
                            vals,
                            (depth - 1) as nat,
                        );
                        let c = construct(
                            types,
                            limits,
                            a.world,
                            object_name,
                            action_name,
                            vals,
                            (depth - 1) as nat,
                        );
                        if c.result is Ok {
                            lemma_settled_then(world.totem, a.world.totem, c.world.totem);
                        }
                    },
                    Some(FieldView::TRef(target)) => {
                        lemma_invoke(
                            types,
                            limits,
                            a.world,
                            target,
                            None,
                            action_name,
                            vals,
                            depth,
                        );
                        let c = invoke(
                            types,
                            limits,
                            a.world,
                            target,
                            None,
                            action_name,
                            vals,
                            depth,
                        );
                        if c.result is Ok {
                            lemma_settled_then(world.totem, a.world.totem, c.world.totem);
                        }
                    },
                    Some(FieldView::VRef(r)) => {
                        lemma_invoke(
                            types,
                            limits,
                            a.world,
                            r.data,
                            Some(r.table),
                            action_name,
                            vals,
                            depth,
                        );
                        let c = invoke(
                            types,
                            limits,
                            a.world,
                            r.data,
                            Some(r.table),
                            action_name,
                            vals,
                            depth,
                        );
                        if c.result is Ok {
                            lemma_settled_then(world.totem, a.world.totem, c.world.totem);
                        }
                    },
                    Some(_) => {},
                },
            }
        },
        _ => {},
    }
}

/// A call of the host leaves the store as its arguments left it.
#[verifier::spinoff_prover]
pub proof fn lemma_eval_extern_call<H: Flop>(
    types: TypesView,
    limits: Limits,
    world: World<H>,
    vars: DataView,
    object: Object,
    e: ExpressionView,
    depth: nat,
)
    ensures
        eval_extern_call(types, limits, world, vars, object, e, depth).result is Ok ==> settled(
            world.totem,
            eval_extern_call(types, limits, world, vars, object, e, depth).world.totem,
        ),
    decreases 6 * depth + 1, 0int, e, 0int,
{
    reveal(eval_extern_call);
    match e {
        ExpressionView::ExternCall { function_name, args } => {
            lemma_eval_list(types, limits, world, vars, object, args, 0, Seq::empty(), depth);
        },
        _ => {},
    }
}

/// Binding an object to an interface leaves a settled store.
#[verifier::spinoff_prover]
pub proof fn lemma_eval_virtualize<H: Flop>(
    types: TypesView,
    limits: Limits,
    world: World<H>,
    vars: DataView,
    object: Object,
    e: ExpressionView,
    depth: nat,
)
    ensures
        eval_virtualize(types, limits, world, vars, object, e, depth).result is Ok ==> settled(
            world.totem,
            eval_virtualize(types, limits, world, vars, object, e, depth).world.totem,
        ),
    decreases 6 * depth + 1, 0int, e, 0int,
{
    reveal(eval_virtualize);
    match e {
        ExpressionView::VirtualizeObject { interface_name, object: inner } => {
            lemma_eval(types, limits, world, vars, object, *inner, depth);
        },
        _ => {},
    }
}

/// A record constructor leaves a settled store.
#[verifier::spinoff_prover]
pub proof fn lemma_eval_data<H: Flop>(
    types: TypesView,
    limits: Limits,
    world: World<H>,
    vars: DataView,
    object: Object,
    e: ExpressionView,
    depth: nat,
)
    ensures
        eval_data(types, limits, world, vars, object, e, depth).result is Ok ==> settled(
            world.totem,
            eval_data(types, limits, world, vars, object, e, depth).world.totem,
        ),
    decreases 6 * depth + 1, 0int, e, 0int,
{
    reveal(eval_data);
    match e {
        ExpressionView::Data { name, fields } => {
            lemma_eval_fields(types, limits, world, vars, object, fields, 0, Seq::empty(), depth);
        },
        _ => {},
    }
}

/// A comparison chain leaves a settled store.
#[verifier::spinoff_prover]
pub proof fn lemma_eval_comparison<H: Flop>(
    types: TypesView,
    limits: Limits,
    world: World<H>,
    vars: DataView,
    object: Object,
    e: ExpressionView,
    depth: nat,
)
    ensures
        eval_comparison(types, limits, world, vars, object, e, depth).result is Ok ==> settled(
            world.totem,
            eval_comparison(types, limits, world, vars, object, e, depth).world.totem,
        ),
    decreases 6 * depth + 1, 0int, e, 0int,
{
    reveal(eval_comparison);
    match e {
        ExpressionView::Comparison(first, links) => {
            lemma_eval(types, limits, world, vars, object, *first, depth);
            let r = single(eval(types, limits, world, vars, object, *first, depth));
            match r.result {
                Err(_) => {},
                Ok(vals) => match vals[0] {
                    FieldView::Num(x) => {
                        lemma_eval_chain(
                            types,
                            limits,
                            r.world,
                            r.vars,
                            object,
                            x,
                            links,
                            0,
                            depth,
                        );
                        let c = eval_chain(
                            types,
                            limits,
                            r.world,
                            r.vars,
                            object,
                            x,
                            links,
                            0,
                            depth,
                        );
                        if c.result is Ok {
                            lemma_settled_then(world.totem, r.world.totem, c.world.totem);
                        }
                    },
                    _ => {},
                },
            }
        },
        _ => {},
    }
}

/// An arithmetic operation leaves a settled store.
#[verifier::spinoff_prover]
pub proof fn lemma_eval_arith<H: Flop>(
    types: TypesView,
    limits: Limits,
    world: World<H>,
    vars: DataView,
    object: Object,
    e: ExpressionView,
    depth: nat,
)
    ensures
        eval_arith(types, limits, world, vars, object, e, depth).result is Ok ==> settled(
            world.totem,
            eval_arith(types, limits, world, vars, object, e, depth).world.totem,
        ),
    decreases 6 * depth + 1, 0int, e, 0int,
{
    reveal(eval_arith);
    match e {
        ExpressionView::Arith(op, left, right) => {
            lemma_eval(types, limits, world, vars, object, *left, depth);
            let a = single(eval(types, limits, world, vars, object, *left, depth));
            match a.result {
                Err(_) => {},
                Ok(avals) => match avals[0] {
                    FieldView::Num(x) => {
                        lemma_eval(types, limits, a.world, a.vars, object, *right, depth);
                        let b = single(eval(types, limits, a.world, a.vars, object, *right, depth));
                        if b.result is Ok {
                            lemma_settled_then(world.totem, a.world.totem, b.world.totem);
                        }
                    },
                    _ => {},
                },
            }
        },
        _ => {},
    }
}

/// A list of expressions that gives values leaves a settled store.
#[verifier::spinoff_prover]
pub proof fn lemma_eval_list<H: Flop>(
    types: TypesView,
    limits: Limits,
    world: World<H>,
    vars: DataView,
    object: Object,
    exprs: Seq<ExpressionView>,
    i: int,
    acc: Seq<FieldView>,
    depth: nat,
)
    ensures
        eval_list(types, limits, world, vars, object, exprs, i, acc, depth).result is Ok ==> settled(
            world.totem,
            eval_list(types, limits, world, vars, object, exprs, i, acc, depth).world.totem,
        ),
    decreases 6 * depth + 1, 0int, exprs, exprs.len() - i,
{
    reveal(eval_list);
    if 0 <= i < exprs.len() {
        lemma_eval(types, limits, world, vars, object, exprs[i], depth);
        let r = eval(types, limits, world, vars, object, exprs[i], depth);
        match r.result {
            Err(_) => {},
            Ok(vals) => {
                lemma_eval_list(
                    types,
                    limits,
                    r.world,
                    r.vars,
                    object,
                    exprs,
                    i + 1,
                    acc + vals,
                    depth,
                );
                let t = eval_list(
                    types,
                    limits,
                    r.world,
                    r.vars,
                    object,
                    exprs,
                    i + 1,
                    acc + vals,
                    depth,
                );
                if t.result is Ok {
                    lemma_settled_then(world.totem, r.world.totem, t.world.totem);
                }
            },
        }
    }
}

/// The fields of a record leave a settled store.
#[verifier::spinoff_prover]
pub proof fn lemma_eval_fields<H: Flop>(
    types: TypesView,
    limits: Limits,
    world: World<H>,
    vars: DataView,
    object: Object,
    fields: Entries<ExpressionView>,
    i: int,
    acc: DataView,
    depth: nat,
)
    ensures
        eval_fields(types, limits, world, vars, object, fields, i, acc, depth).1 is Ok ==> settled(
            world.totem,
            eval_fields(types, limits, world, vars, object, fields, i, acc, depth).0.world.totem,
        ),
    decreases 6 * depth + 1, 0int, fields, fields.len() - i,
{
    reveal(eval_fields);
    if 0 <= i < fields.len() {
        lemma_eval(types, limits, world, vars, object, fields[i].1, depth);
        let r = single(eval(types, limits, world, vars, object, fields[i].1, depth));
        match r.result {
            Err(_) => {},
            Ok(vals) => {
                let next_acc = dict_insert(acc, fields[i].0, vals[0]);
                lemma_eval_fields(
                    types,
                    limits,
                    r.world,
                    r.vars,
                    object,
                    fields,
                    i + 1,
                    next_acc,
                    depth,
                );
                let t = eval_fields(
                    types,
                    limits,
                    r.world,
                    r.vars,
                    object,
                    fields,
                    i + 1,
                    next_acc,
                    depth,
                );
                if t.1 is Ok {
                    lemma_settled_then(world.totem, r.world.totem, t.0.world.totem);
                }
            },
        }
    }
}

/// The links of a comparison chain leave a settled store.
#[verifier::spinoff_prover]
pub proof fn lemma_eval_chain<H: Flop>(
    types: TypesView,
    limits: Limits,
    world: World<H>,
    vars: DataView,
    object: Object,
    x: Num,
    links: Seq<(CompareOp, ExpressionView)>,
    i: int,
    depth: nat,
)
    ensures
        eval_chain(types, limits, world, vars, object, x, links, i, depth).result is Ok ==> settled(
            world.totem,
            eval_chain(types, limits, world, vars, object, x, links, i, depth).world.totem,
        ),
    decreases 6 * depth + 1, 0int, links, links.len() - i,
{
    reveal(eval_chain);
    if 0 <= i < links.len() {
        lemma_eval(types, limits, world, vars, object, links[i].1, depth);
        let r = single(eval(types, limits, world, vars, object, links[i].1, depth));
        match r.result {
            Err(_) => {},
            Ok(vals) => match vals[0] {
                FieldView::Num(y) => if H::compare_model(links[i].0, x, y) {
                    lemma_eval_chain(
                        types,
                        limits,
                        r.world,
                        r.vars,
                        object,
                        y,
                        links,
                        i + 1,
                        depth,
                    );
                    let t = eval_chain(
                        types,
                        limits,
                        r.world,
                        r.vars,
                        object,
                        y,
                        links,
                        i + 1,
                        depth,
                    );
                    if t.result is Ok {
                        lemma_settled_then(world.totem, r.world.totem, t.world.totem);
                    }
                },
                _ => {},
            },
        }
    }
}

/// A method call that returns leaves a settled store.
#[verifier::spinoff_prover]
pub proof fn lemma_invoke<H: Flop>(
    types: TypesView,
    limits: Limits,
    world: World<H>,
    target: Object,
    table: Option<Seq<char>>,
    action_name: Seq<char>,
    vals: Seq<FieldView>,
    depth: nat,
)
    ensures
        invoke(types, limits, world, target, table, action_name, vals, depth).result is Ok
            ==> settled(
            world.totem,
            invoke(types, limits, world, target, table, action_name, vals, depth).world.totem,
        ),
    decreases 6 * depth, 0int,
{
    reveal(invoke);
    if world.totem.has(target) {
        let object_type = world.totem.objects[target as int].object_type;
        let alg_name = match table {
            Some(t) => algorithm_name(types, object_type, t, action_name),
            None => Some(action_name),
        };
        match alg_name {
            None => {},
            Some(name) => match algorithm(types, object_type, name) {
                None => {},
                Some(alg) => if depth > 0 {
                    lemma_call(
                        types,
                        limits,
                        world,
                        Start {
                            object: target,
                            action_name: name,
                            vars: bind(alg.param_list, vals),
                            pc: 0,
                            has_state: true,
                        },
                        limits.steps as nat,
                        (depth - 1) as nat,
                    );
                },
            },
        }
    }
}

/// A construction that returns leaves a settled store, in which the new
/// object rests.
#[verifier::spinoff_prover]
pub proof fn lemma_construct<H: Flop>(
    types: TypesView,
    limits: Limits,
    world: World<H>,
    object_type: Seq<char>,
    init_name: Seq<char>,
    args: Seq<FieldView>,
    depth: nat,
)
    ensures
        construct(types, limits, world, object_type, init_name, args, depth).result is Ok
            ==> settled(
            world.totem,
            construct(types, limits, world, object_type, init_name, args, depth).world.totem,
        ),
    decreases 6 * depth + 6, 0int,
{
    reveal(construct);
    let new = world.totem.objects.len() as Object;
    let made = World { totem: world.totem.with_fresh(object_type), host: world.host };
    match algorithm(types, object_type, init_name) {
        None => {},
        Some(alg) => {
            let start = Start {
                object: new,
                action_name: init_name,
                vars: bind(alg.param_list, args),
                pc: 0,
                has_state: false,
            };
            lemma_call(types, limits, made, start, limits.steps as nat, depth);
            let c = call(types, limits, made, start, limits.steps as nat, depth);
            if c.result is Ok && fits(c.world.totem) {
                assert(made.totem.objects.len() == world.totem.objects.len() + 1);
                assert(new as int == world.totem.objects.len());
                assert forall|x: int|
                    0 <= x < world.totem.objects.len()
                        && world.totem.objects[x].resting implies (
                #[trigger] c.world.totem.objects[x]).resting by {
                    assert(made.totem.objects[x].resting);
                }
                assert forall|x: int|
                    world.totem.objects.len() <= x < c.world.totem.objects.len() implies (
                #[trigger] c.world.totem.objects[x]).resting by {}
            }
        },
    }
}

/// A call that ends without a fault leaves a settled store, in which its
/// object rests if the call began with the flag unset.
#[verifier::spinoff_prover]
pub proof fn lemma_call<H: Flop>(
    types: TypesView,
    limits: Limits,
    world: World<H>,
    start: Start,
    hops: nat,
    depth: nat,
)
    ensures
        call(types, limits, world, start, hops, depth).result is Ok ==> settled(
            world.totem,
            call(types, limits, world, start, hops, depth).world.totem,
        ) && (fits(call(types, limits, world, start, hops, depth).world.totem)
            && !start.has_state ==> call(
            types,
            limits,
            world,
            start,
            hops,
            depth,
        ).world.totem.objects[start.object as int].resting),
    decreases 6 * depth + 5, hops,
{
    reveal(call);
    if hops > 0 && world.totem.has(start.object) {
        match algorithm(
            types,
            world.totem.objects[start.object as int].object_type,
            start.action_name,
        ) {
            None => {},
            Some(alg) => {
                let frame = Frame {
                    object: start.object,
                    action_name: start.action_name,
                    code: alg.steps,
                    pc: start.pc,
                    vars: start.vars,
                    has_state: start.has_state,
                };
                lemma_run(types, limits, world, frame, limits.steps as nat, depth);
                let r = run(types, limits, world, frame, limits.steps as nat, depth);
                match r.result {
                    Ok(
                        AlgorithmResultView::ExternContinuation {
                            object,
                            action_name,
                            vars,
                            has_state,
                        },
                    ) => {
                        let then = Start { object, action_name, vars, pc: 0, has_state };
                        lemma_call(types, limits, r.world, then, (hops - 1) as nat, depth);
                        let c = call(types, limits, r.world, then, (hops - 1) as nat, depth);
                        if c.result is Ok && fits(c.world.totem) {
                            let result = r.result->Ok_0;
                            assert(fits(r.world.totem));
                            assert forall|x: int|
                                0 <= x < world.totem.objects.len()
                                    && world.totem.objects[x].resting implies (
                            #[trigger] c.world.totem.objects[x]).resting by {
                                assert(r.world.totem.objects[x].resting);
                            }
                            assert forall|x: int|
                                world.totem.objects.len() <= x
                                    < c.world.totem.objects.len() implies (
                            #[trigger] c.world.totem.objects[x]).resting by {
                                if x < r.world.totem.objects.len() {
                                    if !r.world.totem.objects[x].resting {
                                        assert(handed_to(result, x));
                                    }
                                }
                            }
                            if !start.has_state {
                                assert(r.world.totem.objects[start.object as int].resting);
                            }
                        }
                    },
                    Ok(result) => {
                        if fits(r.world.totem) {
                            assert forall|x: int|
                                world.totem.objects.len() <= x
                                    < r.world.totem.objects.len() implies (
                            #[trigger] r.world.totem.objects[x]).resting by {
                                assert(!handed_to(result, x));
                            }
                        }
                    },
                    Err(_) => {},
                }
            },
        }
    }
}

/// An activation that ends without a fault leaves a settled store, but for
/// a fresh object that it handed over to, and its object rests if it began
/// with the flag unset.
#[verifier::spinoff_prover]
pub proof fn lemma_run<H: Flop>(
    types: TypesView,
    limits: Limits,
    world: World<H>,
    frame: Frame,
    steps: nat,
    depth: nat,
)
    requires
        world.totem.has(frame.object),
    ensures
        run_settled(
            world.totem,
            frame.object,
            frame.has_state,
            run(types, limits, world, frame, steps, depth),
        ),
    decreases 6 * depth + 4, steps,
{
    reveal(run);
    let e = frame.object as int;
    if frame.pc >= frame.code.len() {
    } else if steps > 0 {
        lemma_perform(types, limits, world, frame, frame.code[frame.pc as int], depth);
        match step(types, limits, world, frame, depth) {
            Stepped::Next(w, pc, vars, has_state) => {
                let frame2 = Frame { pc, vars, has_state, ..frame };
                lemma_run(types, limits, w, frame2, (steps - 1) as nat, depth);
                let r = run(types, limits, w, frame2, (steps - 1) as nat, depth);
                match r.result {
                    Ok(result) => {
                        if fits(r.world.totem) {
                            assert(fits(w.totem));
                            assert forall|x: int|
                                0 <= x < world.totem.objects.len()
                                    && world.totem.objects[x].resting implies (
                            #[trigger] r.world.totem.objects[x]).resting by {
                                if x != e {
                                    assert(w.totem.objects[x].resting);
                                }
                            }
                            assert forall|x: int|
                                world.totem.objects.len() <= x
                                    < r.world.totem.objects.len() implies (
                            #[trigger] r.world.totem.objects[x]).resting || handed_to(
                                result,
                                x,
                            ) by {
                                if x < w.totem.objects.len() {
                                    assert(w.totem.objects[x].resting);
                                }
                            }
                        }
                    },
                    Err(_) => {},
                }
            },
            _ => {},
        }
    }
}

/// What every instruction keeps.
#[verifier::spinoff_prover]
pub proof fn lemma_perform<H: Flop>(
    types: TypesView,
    limits: Limits,
    world: World<H>,
    frame: Frame,
    instr: StatementView,
    depth: nat,
)
    requires
        world.totem.has(frame.object),
    ensures
        step_settled(
            world.totem,
            frame.object,
            frame.has_state,
            perform(types, limits, world, frame, instr, depth),
        ),
    decreases 6 * depth + 3, 1int,
{
    reveal(perform);
    match instr {
        StatementView::GotoAlg { table, alg_name, args } => lemma_goto(
            types,
            limits,
            world,
            frame,
            table,
            alg_name,
            args,
            depth,
        ),
        StatementView::DebugNums(_) => lemma_step_values(types, limits, world, frame, instr, depth),
        StatementView::Evaluate { .. } => lemma_step_values(
            types,
            limits,
            world,
            frame,
            instr,
            depth,
        ),
        StatementView::Return(_) => lemma_step_values(types, limits, world, frame, instr, depth),
        StatementView::State(_) => lemma_step_single(types, limits, world, frame, instr, depth),
        StatementView::Wait(_) => lemma_step_single(types, limits, world, frame, instr, depth),
        StatementView::Branch { .. } => lemma_step_single(
            types,
            limits,
            world,
            frame,
            instr,
            depth,
        ),
        StatementView::PatternBranch { .. } => lemma_step_single(
            types,
            limits,
            world,
            frame,
            instr,
            depth,
        ),
        StatementView::SetAdd { .. } => lemma_step_single(
            types,
            limits,
            world,
            frame,
            instr,
            depth,
        ),
        StatementView::SetRemove { .. } => lemma_step_single(
            types,
            limits,
            world,
            frame,
            instr,
            depth,
        ),
        StatementView::SetIterate { .. } => lemma_step_iterate(
            types,
            limits,
            world,
            frame,
            instr,
            depth,
        ),
        _ => {},
    }
}

/// What the instructions that evaluate a list of expressions keep.
#[verifier::spinoff_prover]
pub proof fn lemma_step_values<H: Flop>(
    types: TypesView,
    limits: Limits,
    world: World<H>,
    frame: Frame,
    instr: StatementView,
    depth: nat,
)
    requires
        world.totem.has(frame.object),
        instr is DebugNums || instr is Evaluate || instr is Return,
    ensures
        step_settled(
            world.totem,
            frame.object,
            frame.has_state,
            perform(types, limits, world, frame, instr, depth),
        ),
    decreases 6 * depth + 3, 0int,
{
    reveal(perform);
    reveal(step_debug_nums);
    reveal(step_evaluate);
    reveal(step_return);
    lemma_eval_list(
        types,
        limits,
        world,
        frame.vars,
        frame.object,
        listed(instr),
        0,
        Seq::empty(),
        depth,
    );
    let r = eval_list(
        types,
        limits,
        world,
        frame.vars,
        frame.object,
        listed(instr),
        0,
        Seq::empty(),
        depth,
    );
    let next = frame.pc + 1;
    if instr is Return && r.result is Ok && next < frame.code.len() && frame.code[next] is Wait {
        let e = frame.code[next]->Wait_0;
        lemma_eval(types, limits, r.world, r.vars, frame.object, e, depth);
        let t = single(eval(types, limits, r.world, r.vars, frame.object, e, depth));
        if t.result is Ok {
            lemma_settled_then(world.totem, r.world.totem, t.world.totem);
            match begin_wait(
                t.world,
                frame.object,
                frame.action_name,
                t.result->Ok_0[0],
                (next + 1) as usize,
            ) {
                Ok(w) => {
                    if fits(w.totem) {
                        assert(w.totem.objects.len() == t.world.totem.objects.len());
                        assert forall|x: int|
                            0 <= x < world.totem.objects.len()
                                && world.totem.objects[x].resting implies (
                        #[trigger] w.totem.objects[x]).resting by {
                            assert(t.world.totem.objects[x].resting);
                        }
                        assert forall|x: int|
                            world.totem.objects.len() <= x < w.totem.objects.len() implies (
                        #[trigger] w.totem.objects[x]).resting by {
                            assert(t.world.totem.objects[x].resting);
                        }
                    }
                },
                Err(_) => {},
            }
        }
    }
}

/// What the instructions that evaluate one expression keep.
#[verifier::spinoff_prover]
pub proof fn lemma_step_single<H: Flop>(
    types: TypesView,
    limits: Limits,
    world: World<H>,
    frame: Frame,
    instr: StatementView,
    depth: nat,
)
    requires
        world.totem.has(frame.object),
        instr is State || instr is Wait || instr is Branch || instr is PatternBranch
            || instr is SetAdd || instr is SetRemove,
    ensures
        step_settled(
            world.totem,
            frame.object,
            frame.has_state,
            perform(types, limits, world, frame, instr, depth),
        ),
    decreases 6 * depth + 3, 0int,
{
    reveal(perform);
    reveal(step_state);
    reveal(step_wait);
    reveal(step_branch);
    reveal(step_pattern);
    reveal(step_set_add);
    reveal(step_set_remove);
    if !(instr is State && frame.has_state) {
        lemma_eval(types, limits, world, frame.vars, frame.object, sole(instr), depth);
    }
}

/// What a loop over a set keeps.
#[verifier::spinoff_prover]
pub proof fn lemma_step_iterate<H: Flop>(
    types: TypesView,
    limits: Limits,
    world: World<H>,
    frame: Frame,
    instr: StatementView,
    depth: nat,
)
    requires
        world.totem.has(frame.object),
        instr is SetIterate,
    ensures
        step_settled(
            world.totem,
            frame.object,
            frame.has_state,
            perform(types, limits, world, frame, instr, depth),
        ),
    decreases 6 * depth + 3, 0int,
{
    reveal(perform);
    reveal(step_iterate);
    match instr {
        StatementView::SetIterate { var_name, set_name, break_offset } => match dict_get(
            frame.vars,
            set_name,
        ) {
            Some(FieldView::ObjectSet(s)) => {
                lemma_iterate(
                    types,
                    limits,
                    world,
                    frame,
                    var_name,
                    s,
                    0,
                    dict_remove(frame.vars, set_name),
                    depth,
                );
            },
            _ => {},
        },
        _ => {},
    }
}

/// The rounds of a loop that end without a fault leave a settled store.
#[verifier::spinoff_prover]
pub proof fn lemma_iterate<H: Flop>(
    types: TypesView,
    limits: Limits,
    world: World<H>,
    frame: Frame,
    var_name: Seq<char>,
    members: Members,
    k: int,
    vars: DataView,
    depth: nat,
)
    requires
        world.totem.has(frame.object),
    ensures
        iterate(types, limits, world, frame, var_name, members, k, vars, depth).1 is Ok
            ==> settled(
            world.totem,
            iterate(types, limits, world, frame, var_name, members, k, vars, depth).0.totem,
        ),
    decreases 6 * depth + 2, members.len() - k,
{
    reveal(iterate);
    if 0 <= k < members.len() && depth > 0 {
        let body = Frame {
            pc: (frame.pc + 1) as usize,
            vars: dict_insert(vars, var_name, FieldView::VRef(members[k])),
            ..frame
        };
        lemma_run(types, limits, world, body, limits.steps as nat, (depth - 1) as nat);
        let r = run(types, limits, world, body, limits.steps as nat, (depth - 1) as nat);
        match r.result {
            Ok(AlgorithmResultView::ContinueLoop { vars: after }) => {
                let result = r.result->Ok_0;
                assert(settled(world.totem, r.world.totem)) by {
                    if fits(r.world.totem) {
                        assert forall|x: int|
                            world.totem.objects.len() <= x
                                < r.world.totem.objects.len() implies (
                        #[trigger] r.world.totem.objects[x]).resting by {
                            assert(!handed_to(result, x));
                        }
                    }
                }
                lemma_iterate(
                    types,
                    limits,
                    r.world,
                    frame,
                    var_name,
                    members,
                    k + 1,
                    after,
                    depth,
                );
                let t = iterate(
                    types,
                    limits,
                    r.world,
                    frame,
                    var_name,
                    members,
                    k + 1,
                    after,
                    depth,
                );
                if t.1 is Ok {
                    lemma_settled_then(world.totem, r.world.totem, t.0.totem);
                }
            },
            _ => {},
        }
    }
}

/// What a tail dispatch keeps: a settled store, but for the fresh object
/// that it hands over to.
#[verifier::spinoff_prover]
pub proof fn lemma_goto<H: Flop>(
    types: TypesView,
    limits: Limits,
    world: World<H>,
    frame: Frame,
    table: TablePathView,
    alg_name: Seq<char>,
    args: Seq<ExpressionView>,
    depth: nat,
)
    requires
        world.totem.has(frame.object),
    ensures
        step_settled(
            world.totem,
            frame.object,
            frame.has_state,
            goto(types, limits, world, frame, table, alg_name, args, depth),
        ),
    decreases 6 * depth + 2, 0int,
{
    reveal(goto);
    let next = frame.pc + 1;
    let s = goto(types, limits, world, frame, table, alg_name, args, depth);
    if s is Exit {
        let w1: World<H> = if next < frame.code.len() && frame.code[next] is Wait {
            let e = frame.code[next]->Wait_0;
            lemma_eval(types, limits, world, frame.vars, frame.object, e, depth);
            let r = single(eval(types, limits, world, frame.vars, frame.object, e, depth));
            begin_wait(
                r.world,
                frame.object,
                frame.action_name,
                r.result->Ok_0[0],
                (next + 1) as usize,
            )->Ok_0
        } else if next < frame.code.len() {
            World {
                totem: world.totem.emit(
                    crate::data::OutputView::Text(crate::semantics::dead_code_warning()),
                ),
                host: world.host,
            }
        } else {
            world
        };
        let vars1 = if next < frame.code.len() && frame.code[next] is Wait {
            single(
                eval(
                    types,
                    limits,
                    world,
                    frame.vars,
                    frame.object,
                    frame.code[next]->Wait_0,
                    depth,
                ),
            ).vars
        } else {
            frame.vars
        };
        let w2 = match table {
            TablePathView::Virtual(name) => w1,
            TablePathView::Static(object_type, table_name) => World {
                totem: w1.totem.with_fresh(object_type),
                host: w1.host,
            },
        };
        lemma_eval_list(types, limits, w2, vars1, frame.object, args, 0, Seq::empty(), depth);
        let after = s->Exit_0;
        let result = s->Exit_2;
        assert(after == eval_list(
            types,
            limits,
            w2,
            vars1,
            frame.object,
            args,
            0,
            Seq::empty(),
            depth,
        ).world);
        if fits(after.totem) {
            assert(fits(w2.totem));
            assert(fits(w1.totem));
            assert forall|x: int|
                0 <= x < world.totem.objects.len() && world.totem.objects[x].resting implies (
            #[trigger] after.totem.objects[x]).resting by {
                assert(w1.totem.objects[x].resting);
                assert(w2.totem.objects[x].resting);
            }
            assert forall|x: int|
                world.totem.objects.len() <= x < after.totem.objects.len() implies (
            #[trigger] after.totem.objects[x]).resting || handed_to(result, x) by {
                if x < w1.totem.objects.len() {
                    assert(w1.totem.objects[x].resting);
                    assert(w2.totem.objects[x].resting);
                } else if x < w2.totem.objects.len() {
                    assert(handed_to(result, x));
                }
            }
        }
    }
}

/// A construction that ends without a fault leaves a settled store: every
/// object that rested still rests, and every object that came into being,
/// the constructed one among them, rests.
pub proof fn law_construct_rests<H: Flop>(
    types: TypesView,
    limits: Limits,
    world: World<H>,
    object_type: Seq<char>,
    table_name: Seq<char>,
    init_name: Seq<char>,
    args: Seq<FieldView>,
)
    ensures
        ({
            let m = init(types, limits, world, object_type, table_name, init_name, args);
            m.1 is Ok ==> settled(world.totem, m.0.totem) && (fits(m.0.totem) && all_rest(
                world.totem,
            ) ==> all_rest(m.0.totem))
        }),
{
    match algorithm_name(types, object_type, table_name, init_name) {
        None => {},
        Some(alg_name) => {
            lemma_construct(types, limits, world, object_type, alg_name, args, limits.depth as nat);
            let c = construct(
                types,
                limits,
                world,
                object_type,
                alg_name,
                args,
                limits.depth as nat,
            );
            if c.result is Ok {
                lemma_settled_all(world.totem, c.world.totem);
            }
        },
    }
}

/// A resumption that ends without a fault leaves the resumed object with a
/// resting state, every other object that rested still resting, and every
/// new object resting.
pub proof fn law_resume_rests<H: Flop>(
    types: TypesView,
    limits: Limits,
    world: World<H>,
    object: Object,
    action_name: Seq<char>,
    pc: usize,
)
    ensures
        ({
            let c = resume(types, limits, world, object, action_name, pc);
            c.result is Ok && fits(c.world.totem) ==> {
                &&& world.totem.objects.len() <= c.world.totem.objects.len()
                &&& world.totem.has(object)
                &&& c.world.totem.objects[object as int].resting
                &&& forall|x: int|
                    0 <= x < world.totem.objects.len() && world.totem.objects[x].resting ==> (
                    #[trigger] c.world.totem.objects[x]).resting
                &&& forall|x: int|
                    world.totem.objects.len() <= x < c.world.totem.objects.len() ==> (
                    #[trigger] c.world.totem.objects[x]).resting
                &&& all_rest(world.totem) ==> all_rest(c.world.totem)
            }
        }),
{
    let c = resume(types, limits, world, object, action_name, pc);
    if world.totem.has(object) {
        let taken = World { totem: world.totem.take_data(object), host: world.host };
        let start = Start {
            object,
            action_name,
            vars: world.totem.objects[object as int].data,
            pc,
            has_state: false,
        };
        lemma_call(types, limits, taken, start, limits.steps as nat, limits.depth as nat);
        if c.result is Ok && fits(c.world.totem) {
            assert forall|x: int|
                0 <= x < world.totem.objects.len() && world.totem.objects[x].resting implies (
            #[trigger] c.world.totem.objects[x]).resting by {
                if x != object {
                    assert(taken.totem.objects[x].resting);
                }
            }
        }
    }
}

/// A turn of the scheduler that ends without a fault leaves every object
/// resting if every object rested before.
pub proof fn law_pump_rests<H: Flop>(types: TypesView, limits: Limits, world: World<H>)
    ensures
        ({
            let p = pump(types, limits, world);
            p.1 is Ok && fits(p.0.totem) && all_rest(world.totem) ==> all_rest(p.0.totem)
        }),
{
    if world.totem.queue.pending.len() > 0 {
        let event = world.totem.queue.pending[0].event;
        let fired = World {
            totem: TotemView { queue: world.totem.queue.advance(), ..world.totem },
            host: world.host,
        };
        law_resume_rests(types, limits, fired, event.object, event.action_name, event.pc);
    }
}

/// Any number of turns that end without a fault leave every object resting
/// if every object rested before.
pub proof fn law_pump_many_rests<H: Flop>(
    types: TypesView,
    limits: Limits,
    world: World<H>,
    turns: nat,
    fired: nat,
)
    ensures
        ({
            let p = pump_many(types, limits, world, turns, fired);
            p.1 is Ok && fits(p.0.totem) ==> world.totem.objects.len() <= p.0.totem.objects.len()
                && (all_rest(world.totem) ==> all_rest(p.0.totem))
        }),
    decreases turns,
{
    if turns > 0 {
        law_pump_rests(types, limits, world);
        lemma_pump_grows(types, limits, world);
        let p = pump(types, limits, world);
        if p.1 == Ok::<bool, Fault>(true) {
            law_pump_many_rests(types, limits, p.0, (turns - 1) as nat, fired + 1);
        }
    }
}

/// A turn of the scheduler that ends without a fault takes no object away.
pub proof fn lemma_pump_grows<H: Flop>(types: TypesView, limits: Limits, world: World<H>)
    ensures
        ({
            let p = pump(types, limits, world);
            p.1 is Ok && fits(p.0.totem) ==> world.totem.objects.len() <= p.0.totem.objects.len()
        }),
{
    if world.totem.queue.pending.len() > 0 {
        let event = world.totem.queue.pending[0].event;
        let fired = World {
            totem: TotemView { queue: world.totem.queue.advance(), ..world.totem },
            host: world.host,
        };
        law_resume_rests(types, limits, fired, event.object, event.action_name, event.pc);
    }
}

/// In a store that is settled with respect to one where every object rested,
/// every object rests.
pub proof fn lemma_settled_all(before: TotemView, after: TotemView)
    requires
        settled(before, after),
    ensures
        fits(after) && all_rest(before) ==> all_rest(after),
{
}

} // verus!
