//! What algorithms mean: the effect of each expression and instruction on
//! the store, the host and the variables of an activation.

use vstd::prelude::*;
use crate::ast::CompareOp;
use crate::data::{
    bool_view, set_add, set_remove, view_bool, DataView, FieldView, Members, Num, Object,
    ObjectRefView, OutputView, TotemView,
};
use crate::instance::Flop;
use crate::item::{algorithm, algorithm_name, TypesView};
use crate::prelude::{dict_find, dict_get, dict_insert, dict_remove, Entries, Fault};
use crate::runtime::{ArithOp, ArmView, ExpressionView, StatementView, TablePathView};

verus! {

/// The bounds that keep every call finite: the number of instructions that
/// one activation may run, which is also the number of hand-overs that one
/// chain of tail dispatches may make, and the depth to which activations may
/// nest.
#[derive(Clone, Copy, PartialEq, Eq, Structural, Debug)]
pub struct Limits {
    pub steps: usize,
    pub depth: usize,
}

/// The store together with the host.
pub struct World<H> {
    pub totem: TotemView,
    pub host: H,
}

/// How an activation ended.
pub enum AlgorithmResultView {
    /// It handed over to another object.
    ExternContinuation { object: Object, action_name: Seq<char>, vars: DataView, has_state: bool },
    /// It reached the marker that ends one round of a loop body.
    ContinueLoop { vars: DataView },
    /// It returned, waited or ran off its end.
    ReturnVals(Seq<FieldView>),
}

/// The outcome of evaluating expressions: the world and the variables after
/// it, and the values or the fault. After a fault the variables are of no
/// account.
pub struct Evaluated<H> {
    pub world: World<H>,
    pub vars: DataView,
    pub result: Result<Seq<FieldView>, Fault>,
}

/// The outcome of one activation.
pub struct Ran<H> {
    pub world: World<H>,
    pub result: Result<AlgorithmResultView, Fault>,
}

/// The outcome of a call that ran to its completion or first wait.
pub struct Called<H> {
    pub world: World<H>,
    pub result: Result<Seq<FieldView>, Fault>,
}

/// The outcome of a construction.
pub struct Constructed<H> {
    pub world: World<H>,
    pub result: Result<Object, Fault>,
}

/// An activation: the object that owns it, its algorithm, and where it
/// stands.
pub struct Frame {
    pub object: Object,
    pub action_name: Seq<char>,
    pub code: Seq<StatementView>,
    pub pc: usize,
    pub vars: DataView,
    pub has_state: bool,
}

/// Where an activation begins: the object, the name of its algorithm, the
/// variables, the program counter, and whether the object rests.
pub struct Start {
    pub object: Object,
    pub action_name: Seq<char>,
    pub vars: DataView,
    pub pc: usize,
    pub has_state: bool,
}

/// The outcome of one instruction.
pub enum Stepped<H> {
    /// The activation goes on at a program counter, with variables, and
    /// with its object resting or not.
    Next(World<H>, usize, DataView, bool),
    /// The activation ends; the flag says whether its object rests.
    Exit(World<H>, bool, AlgorithmResultView),
    Fault(World<H>, Fault),
}

pub open spec fn ok<H>(world: World<H>, vars: DataView, vals: Seq<FieldView>) -> Evaluated<H> {
    Evaluated { world, vars, result: Ok(vals) }
}

pub open spec fn fail<H>(world: World<H>, vars: DataView, fault: Fault) -> Evaluated<H> {
    Evaluated { world, vars, result: Err(fault) }
}

/// An evaluation that must give exactly one value.
pub open spec fn single<H>(r: Evaluated<H>) -> Evaluated<H> {
    match r.result {
        Ok(vals) => if vals.len() == 1 {
            r
        } else {
            fail(r.world, r.vars, Fault::TypeMismatch)
        },
        Err(_) => r,
    }
}

/// The variables of a fresh activation: the first `n` parameters bound to
/// the arguments in order, as far as both go.
pub open spec fn bind_upto(params: Seq<Seq<char>>, args: Seq<FieldView>, n: int) -> DataView
    decreases n,
{
    if n <= 0 {
        Seq::empty()
    } else {
        dict_insert(bind_upto(params, args, n - 1), params[n - 1], args[n - 1])
    }
}

pub open spec fn bind(params: Seq<Seq<char>>, args: Seq<FieldView>) -> DataView {
    bind_upto(
        params,
        args,
        if params.len() <= args.len() {
            params.len() as int
        } else {
            args.len() as int
        },
    )
}

/// The numbers of a list of values, if all of them are numbers.
pub open spec fn nums_of(vals: Seq<FieldView>) -> Option<Seq<Num>> {
    if forall|i: int| 0 <= i < vals.len() ==> (#[trigger] vals[i]) is Num {
        Some(Seq::new(vals.len(), |i: int| vals[i]->Num_0))
    } else {
        None
    }
}

/// The effect of a call of a built-in of sets on the variable `name` that
/// holds the set `s`: the variables after it, and the values or the fault.
pub open spec fn set_builtin(
    vars: DataView,
    name: Seq<char>,
    s: Members,
    action: Seq<char>,
    vals: Seq<FieldView>,
) -> (DataView, Result<Seq<FieldView>, Fault>) {
    if action == "add"@ {
        if vals.len() == 1 && vals[0] is VRef {
            (
                dict_insert(vars, name, FieldView::ObjectSet(set_add(s, vals[0]->VRef_0))),
                Ok(Seq::empty()),
            )
        } else {
            (vars, Err(Fault::TypeMismatch))
        }
    } else if action == "remove"@ {
        if vals.len() == 1 && vals[0] is VRef {
            (
                dict_insert(
                    vars,
                    name,
                    FieldView::ObjectSet(set_remove(s, vals[0]->VRef_0.data)),
                ),
                Ok(Seq::empty()),
            )
        } else {
            (vars, Err(Fault::TypeMismatch))
        }
    } else if action == "next"@ {
        if vals.len() != 0 {
            (vars, Err(Fault::TypeMismatch))
        } else if s.len() == 0 {
            (vars, Err(Fault::KeyError))
        } else {
            (
                dict_insert(vars, name, FieldView::ObjectSet(s.drop_last())),
                Ok(seq![FieldView::VRef(s.last())]),
            )
        }
    } else if action == "not_empty"@ {
        if vals.len() != 0 {
            (vars, Err(Fault::TypeMismatch))
        } else {
            (vars, Ok(seq![bool_view(s.len() != 0)]))
        }
    } else {
        (vars, Ok(Seq::empty()))
    }
}

/// The value of an expression, with what evaluating it does to the world and
/// to the variables. `depth` is the number of activations that may still
/// nest inside.
#[verifier::opaque]
pub open spec fn eval<H: Flop>(
    types: TypesView,
    limits: Limits,
    world: World<H>,
    vars: DataView,
    object: Object,
    e: ExpressionView,
    depth: nat,
) -> Evaluated<H>
    decreases 6 * depth + 1, 0int, e, 1int,
{
    match e {
        ExpressionView::Var(name) => match dict_get(vars, name) {
            Some(v) => ok(world, vars, seq![v]),
            None => fail(world, vars, Fault::KeyError),
        },
        ExpressionView::InitSet => ok(world, vars, seq![FieldView::ObjectSet(Seq::empty())]),
        ExpressionView::SelfObject => ok(world, vars, seq![FieldView::TRef(object)]),
        ExpressionView::SelfData => ok(
            world,
            vars,
            seq![
                FieldView::Data(
                    world.totem.objects[object as int].state_name,
                    world.totem.objects[object as int].data,
                ),
            ],
        ),
        ExpressionView::Const(x) => ok(world, vars, seq![FieldView::Num(x)]),
        ExpressionView::InitObject { .. } => eval_init_object(
            types,
            limits,
            world,
            vars,
            object,
            e,
            depth,
        ),
        ExpressionView::ExecObject { .. } => eval_exec_object(
            types,
            limits,
            world,
            vars,
            object,
            e,
            depth,
        ),
        ExpressionView::ExternCall { .. } => eval_extern_call(
            types,
            limits,
            world,
            vars,
            object,
            e,
            depth,
        ),
        ExpressionView::VirtualizeObject { .. } => eval_virtualize(
            types,
            limits,
            world,
            vars,
            object,
            e,
            depth,
        ),
        ExpressionView::Data { .. } => eval_data(types, limits, world, vars, object, e, depth),
        ExpressionView::Comparison(_, _) => eval_comparison(
            types,
            limits,
            world,
            vars,
            object,
            e,
            depth,
        ),
        ExpressionView::Arith(_, _, _) => eval_arith(types, limits, world, vars, object, e, depth),
    }
}

/// The value of a construction: the fresh object, bound to the table it was made through.
#[verifier::opaque]
pub open spec fn eval_init_object<H: Flop>(
    types: TypesView,
    limits: Limits,
    world: World<H>,
    vars: DataView,
    object: Object,
    e: ExpressionView,
    depth: nat,
) -> Evaluated<H>
    decreases 6 * depth + 1, 0int, e, 0int,
{
    match e {
        ExpressionView::InitObject { object_type, table_name, init_name, args } => {
            let a = eval_list(types, limits, world, vars, object, args, 0, Seq::empty(), depth);
            match a.result {
                Err(_) => a,
                Ok(vals) => match algorithm_name(types, object_type, table_name, init_name) {
                    None => fail(a.world, a.vars, Fault::KeyError),
                    Some(alg_name) => if depth == 0 {
                        fail(a.world, a.vars, Fault::LimitReached)
                    } else {
                        let c = construct(
                            types,
                            limits,
                            a.world,
                            object_type,
                            alg_name,
                            vals,
                            (depth - 1) as nat,
                        );
                        match c.result {
                            Err(f) => fail(c.world, a.vars, f),
                            Ok(new) => ok(
                                c.world,
                                a.vars,
                                seq![FieldView::VRef(ObjectRefView { table: table_name, data: new })],
                            ),
                        }
                    },
                },
            }
        },
        _ => fail(world, vars, Fault::TypeMismatch),
    }
}

/// The values of a method call: a construction where the name is no variable,
/// a built-in where the variable holds a set, else a call of an algorithm of
/// the object that the variable holds.
#[verifier::opaque]
pub open spec fn eval_exec_object<H: Flop>(
    types: TypesView,
    limits: Limits,
    world: World<H>,
    vars: DataView,
    object: Object,
    e: ExpressionView,
    depth: nat,
) -> Evaluated<H>
    decreases 6 * depth + 1, 0int, e, 0int,
{
    match e {
        ExpressionView::ExecObject { object_name, action_name, args } => {
            let a = eval_list(types, limits, world, vars, object, args, 0, Seq::empty(), depth);
            match a.result {
                Err(_) => a,
                Ok(vals) => match dict_get(a.vars, object_name) {
                    None => if depth == 0 {
                        fail(a.world, a.vars, Fault::LimitReached)
                    } else {
                        let c = construct(
                            types,
                            limits,
                            a.world,
                            object_name,
                            action_name,
                            vals,
                            (depth - 1) as nat,
                        );
                        match c.result {
                            Err(f) => fail(c.world, a.vars, f),
                            Ok(new) => ok(c.world, a.vars, seq![FieldView::TRef(new)]),
                        }
                    },
                    Some(FieldView::ObjectSet(s)) => {
                        let b = set_builtin(a.vars, object_name, s, action_name, vals);
                        Evaluated { world: a.world, vars: b.0, result: b.1 }
                    },
                    Some(FieldView::TRef(target)) => {
                        let c = invoke(
                            types,
                            limits,
                            a.world,
                            target,
                            None,
                            action_name,
                            vals,
                            depth,
                        );
                        Evaluated { world: c.world, vars: a.vars, result: c.result }
                    },
                    Some(FieldView::VRef(r)) => {
                        let c = invoke(
                            types,
                            limits,
                            a.world,
                            r.data,
                            Some(r.table),
                            action_name,
                            vals,
                            depth,
                        );
                        Evaluated { world: c.world, vars: a.vars, result: c.result }
                    },
                    Some(_) => fail(a.world, a.vars, Fault::TypeMismatch),
                },
            }
        },
        _ => fail(world, vars, Fault::TypeMismatch),
    }
}

/// The values that the host returns for a call of one of its functions.
#[verifier::opaque]
pub open spec fn eval_extern_call<H: Flop>(
    types: TypesView,
    limits: Limits,
    world: World<H>,
    vars: DataView,
    object: Object,
    e: ExpressionView,
    depth: nat,
) -> Evaluated<H>
    decreases 6 * depth + 1, 0int, e, 0int,
{
    match e {
        ExpressionView::ExternCall { function_name, args } => {
            let a = eval_list(types, limits, world, vars, object, args, 0, Seq::empty(), depth);
            match a.result {
                Err(_) => a,
                Ok(vals) => {
                    let reply = a.world.host.call_model(function_name, vals);
                    ok(World { totem: a.world.totem, host: reply.0 }, a.vars, reply.1)
                },
            }
        },
        _ => fail(world, vars, Fault::TypeMismatch),
    }
}

/// The value of binding an object to an interface.
#[verifier::opaque]
pub open spec fn eval_virtualize<H: Flop>(
    types: TypesView,
    limits: Limits,
    world: World<H>,
    vars: DataView,
    object: Object,
    e: ExpressionView,
    depth: nat,
) -> Evaluated<H>
    decreases 6 * depth + 1, 0int, e, 0int,
{
    match e {
        ExpressionView::VirtualizeObject { interface_name, object: inner } => {
            let r = single(eval(types, limits, world, vars, object, *inner, depth));
            match r.result {
                Err(_) => r,
                Ok(vals) => match vals[0] {
                    FieldView::TRef(target) => ok(
                        r.world,
                        r.vars,
                        seq![FieldView::VRef(ObjectRefView { table: interface_name, data: target })],
                    ),
                    _ => fail(r.world, r.vars, Fault::TypeMismatch),
                },
            }
        },
        _ => fail(world, vars, Fault::TypeMismatch),
    }
}

/// The value of a record constructor.
#[verifier::opaque]
pub open spec fn eval_data<H: Flop>(
    types: TypesView,
    limits: Limits,
    world: World<H>,
    vars: DataView,
    object: Object,
    e: ExpressionView,
    depth: nat,
) -> Evaluated<H>
    decreases 6 * depth + 1, 0int, e, 0int,
{
    match e {
        ExpressionView::Data { name, fields } => {
            let r = eval_fields(types, limits, world, vars, object, fields, 0, Seq::empty(), depth);
            match r.1 {
                Err(f) => fail(r.0.world, r.0.vars, f),
                Ok(data) => ok(r.0.world, r.0.vars, seq![FieldView::Data(name, data)]),
            }
        },
        _ => fail(world, vars, Fault::TypeMismatch),
    }
}

/// The truth of a comparison chain.
#[verifier::opaque]
pub open spec fn eval_comparison<H: Flop>(
    types: TypesView,
    limits: Limits,
    world: World<H>,
    vars: DataView,
    object: Object,
    e: ExpressionView,
    depth: nat,
) -> Evaluated<H>
    decreases 6 * depth + 1, 0int, e, 0int,
{
    match e {
        ExpressionView::Comparison(first, links) => {
            let r = single(eval(types, limits, world, vars, object, *first, depth));
            match r.result {
                Err(_) => r,
                Ok(vals) => match vals[0] {
                    FieldView::Num(x) => eval_chain(
                        types,
                        limits,
                        r.world,
                        r.vars,
                        object,
                        x,
                        links,
                        0,
                        depth,
                    ),
                    _ => fail(r.world, r.vars, Fault::TypeMismatch),
                },
            }
        },
        _ => fail(world, vars, Fault::TypeMismatch),
    }
}

/// The value of an arithmetic operation: both sides, then what the host computes.
#[verifier::opaque]
pub open spec fn eval_arith<H: Flop>(
    types: TypesView,
    limits: Limits,
    world: World<H>,
    vars: DataView,
    object: Object,
    e: ExpressionView,
    depth: nat,
) -> Evaluated<H>
    decreases 6 * depth + 1, 0int, e, 0int,
{
    match e {
        ExpressionView::Arith(op, left, right) => {
            let a = single(eval(types, limits, world, vars, object, *left, depth));
            match a.result {
                Err(_) => a,
                Ok(avals) => match avals[0] {
                    FieldView::Num(x) => {
                        let b = single(eval(types, limits, a.world, a.vars, object, *right, depth));
                        match b.result {
                            Err(_) => b,
                            Ok(bvals) => match bvals[0] {
                                FieldView::Num(y) => ok(
                                    b.world,
                                    b.vars,
                                    seq![FieldView::Num(H::arith_model(op, x, y))],
                                ),
                                _ => fail(b.world, b.vars, Fault::TypeMismatch),
                            },
                        }
                    },
                    _ => fail(a.world, a.vars, Fault::TypeMismatch),
                },
            }
        },
        _ => fail(world, vars, Fault::TypeMismatch),
    }
}

/// The values of the expressions from the `i`th on, one after the other,
/// behind the values `acc` of those before.
#[verifier::opaque]
pub open spec fn eval_list<H: Flop>(
    types: TypesView,
    limits: Limits,
    world: World<H>,
    vars: DataView,
    object: Object,
    exprs: Seq<ExpressionView>,
    i: int,
    acc: Seq<FieldView>,
    depth: nat,
) -> Evaluated<H>
    decreases 6 * depth + 1, 0int, exprs, exprs.len() - i,
{
    if i < 0 || i >= exprs.len() {
        ok(world, vars, acc)
    } else {
        let r = eval(types, limits, world, vars, object, exprs[i], depth);
        match r.result {
            Err(_) => r,
            Ok(vals) => eval_list(
                types,
                limits,
                r.world,
                r.vars,
                object,
                exprs,
                i + 1,
                acc + vals,
                depth,
            ),
        }
    }
}

/// The fields of a record from the `i`th on, put one after the other into
/// the fields `acc` of those before.
#[verifier::opaque]
pub open spec fn eval_fields<H: Flop>(
    types: TypesView,
    limits: Limits,
    world: World<H>,
    vars: DataView,
    object: Object,
    fields: Entries<ExpressionView>,
    i: int,
    acc: DataView,
    depth: nat,
) -> (Evaluated<H>, Result<DataView, Fault>)
    decreases 6 * depth + 1, 0int, fields, fields.len() - i,
{
    if i < 0 || i >= fields.len() {
        (ok(world, vars, Seq::empty()), Ok(acc))
    } else {
        let r = single(eval(types, limits, world, vars, object, fields[i].1, depth));
        match r.result {
            Err(f) => (r, Err(f)),
            Ok(vals) => eval_fields(
                types,
                limits,
                r.world,
                r.vars,
                object,
                fields,
                i + 1,
                dict_insert(acc, fields[i].0, vals[0]),
                depth,
            ),
        }
    }
}

/// The truth of a comparison chain from its `i`th link on, where `x` is the
/// number on the left of that link: false at the first link that fails, and
/// nothing behind it is evaluated.
#[verifier::opaque]
pub open spec fn eval_chain<H: Flop>(
    types: TypesView,
    limits: Limits,
    world: World<H>,
    vars: DataView,
    object: Object,
    x: Num,
    links: Seq<(CompareOp, ExpressionView)>,
    i: int,
    depth: nat,
) -> Evaluated<H>
    decreases 6 * depth + 1, 0int, links, links.len() - i,
{
    if i < 0 || i >= links.len() {
        ok(world, vars, seq![bool_view(true)])
    } else {
        let r = single(eval(types, limits, world, vars, object, links[i].1, depth));
        match r.result {
            Err(_) => r,
            Ok(vals) => match vals[0] {
                FieldView::Num(y) => if H::compare_model(links[i].0, x, y) {
                    eval_chain(types, limits, r.world, r.vars, object, y, links, i + 1, depth)
                } else {
                    ok(r.world, r.vars, seq![bool_view(false)])
                },
                _ => fail(r.world, r.vars, Fault::TypeMismatch),
            },
        }
    }
}

/// A call of a method on `target` from inside an expression: through the
/// table `table` where one is given, else of the algorithm that `action_name`
/// names itself. It runs to its completion or first wait, nested in the
/// caller, and gives the values it returned.
#[verifier::opaque]
pub open spec fn invoke<H: Flop>(
    types: TypesView,
    limits: Limits,
    world: World<H>,
    target: Object,
    table: Option<Seq<char>>,
    action_name: Seq<char>,
    vals: Seq<FieldView>,
    depth: nat,
) -> Called<H>
    decreases 6 * depth, 0int,
{
    if !world.totem.has(target) {
        Called { world, result: Err(Fault::KeyError) }
    } else {
        let object_type = world.totem.objects[target as int].object_type;
        let alg_name = match table {
            Some(t) => algorithm_name(types, object_type, t, action_name),
            None => Some(action_name),
        };
        match alg_name {
            None => Called { world, result: Err(Fault::KeyError) },
            Some(name) => match algorithm(types, object_type, name) {
                None => Called { world, result: Err(Fault::KeyError) },
                Some(alg) => if depth == 0 {
                    Called { world, result: Err(Fault::LimitReached) }
                } else {
                    call(
                        types,
                        limits,
                        world,
                        Start {
                            object: target,
                            action_name: name,
                            vars: bind(alg.param_list, vals),
                            pc: 0,
                            has_state: true,
                        },
                        limits.steps as nat,
                        (depth - 1) as nat,
                    )
                },
            },
        }
    }
}

/// The construction of an object of `object_type` by its algorithm
/// `init_name`: a fresh object comes into the store, and the constructor runs
/// on it to its completion or first wait.
#[verifier::opaque]
pub open spec fn construct<H: Flop>(
    types: TypesView,
    limits: Limits,
    world: World<H>,
    object_type: Seq<char>,
    init_name: Seq<char>,
    args: Seq<FieldView>,
    depth: nat,
) -> Constructed<H>
    decreases 6 * depth + 6, 0int,
{
    let new = world.totem.objects.len() as Object;
    let made = World { totem: world.totem.with_fresh(object_type), host: world.host };
    match algorithm(types, object_type, init_name) {
        None => Constructed { world: made, result: Err(Fault::KeyError) },
        Some(alg) => {
            let c = call(
                types,
                limits,
                made,
                Start {
                    object: new,
                    action_name: init_name,
                    vars: bind(alg.param_list, args),
                    pc: 0,
                    has_state: false,
                },
                limits.steps as nat,
                depth,
            );
            match c.result {
                Ok(_) => Constructed { world: c.world, result: Ok(new) },
                Err(f) => Constructed { world: c.world, result: Err(f) },
            }
        },
    }
}

/// A call: the activation that `start` describes runs, and for as long as
/// an activation ends by handing over, the one it handed over to runs in its
/// place. `hops` is the number of activations that the chain may still run.
#[verifier::opaque]
pub open spec fn call<H: Flop>(
    types: TypesView,
    limits: Limits,
    world: World<H>,
    start: Start,
    hops: nat,
    depth: nat,
) -> Called<H>
    decreases 6 * depth + 5, hops,
{
    if hops == 0 {
        Called { world, result: Err(Fault::LimitReached) }
    } else if !world.totem.has(start.object) {
        Called { world, result: Err(Fault::KeyError) }
    } else {
        match algorithm(
            types,
            world.totem.objects[start.object as int].object_type,
            start.action_name,
        ) {
            None => Called { world, result: Err(Fault::KeyError) },
            Some(alg) => {
                let r = run(
                    types,
                    limits,
                    world,
                    Frame {
                        object: start.object,
                        action_name: start.action_name,
                        code: alg.steps,
                        pc: start.pc,
                        vars: start.vars,
                        has_state: start.has_state,
                    },
                    limits.steps as nat,
                    depth,
                );
                match r.result {
                    Err(f) => Called { world: r.world, result: Err(f) },
                    Ok(AlgorithmResultView::ReturnVals(vals)) => Called {
                        world: r.world,
                        result: Ok(vals),
                    },
                    Ok(AlgorithmResultView::ContinueLoop { .. }) => Called {
                        world: r.world,
                        result: Ok(Seq::empty()),
                    },
                    Ok(
                        AlgorithmResultView::ExternContinuation {
                            object,
                            action_name,
                            vars,
                            has_state,
                        },
                    ) => call(
                        types,
                        limits,
                        r.world,
                        Start { object, action_name, vars, pc: 0, has_state },
                        (hops - 1) as nat,
                        depth,
                    ),
                }
            },
        }
    }
}

/// The resumption of `object` in `action_name` at `pc` when its wake-up
/// fires: its bundle becomes the variables, and the object rests no more
/// until it sets a state again.
pub open spec fn resume<H: Flop>(
    types: TypesView,
    limits: Limits,
    world: World<H>,
    object: Object,
    action_name: Seq<char>,
    pc: usize,
) -> Called<H> {
    if !world.totem.has(object) {
        Called { world, result: Err(Fault::KeyError) }
    } else {
        call(
            types,
            limits,
            World { totem: world.totem.take_data(object), host: world.host },
            Start {
                object,
                action_name,
                vars: world.totem.objects[object as int].data,
                pc,
                has_state: false,
            },
            limits.steps as nat,
            limits.depth as nat,
        )
    }
}

/// How an activation leaves: an object that does not rest is a violation.
pub open spec fn leave<H>(world: World<H>, has_state: bool, result: AlgorithmResultView) -> Ran<
    H,
> {
    if has_state {
        Ran { world, result: Ok(result) }
    } else {
        Ran { world, result: Err(Fault::ProtocolViolation) }
    }
}

/// One activation, from where `frame` stands to where it ends: at a wait, a
/// return, a hand-over, a loop marker or the end of its code. `steps` is the
/// number of instructions it may still run.
#[verifier::opaque]
pub open spec fn run<H: Flop>(
    types: TypesView,
    limits: Limits,
    world: World<H>,
    frame: Frame,
    steps: nat,
    depth: nat,
) -> Ran<H>
    decreases 6 * depth + 4, steps,
{
    if frame.pc >= frame.code.len() {
        leave(world, frame.has_state, AlgorithmResultView::ReturnVals(Seq::empty()))
    } else if steps == 0 {
        Ran { world, result: Err(Fault::LimitReached) }
    } else {
        match step(types, limits, world, frame, depth) {
            Stepped::Next(w, pc, vars, has_state) => run(
                types,
                limits,
                w,
                Frame { pc, vars, has_state, ..frame },
                (steps - 1) as nat,
                depth,
            ),
            Stepped::Exit(w, has_state, result) => leave(w, has_state, result),
            Stepped::Fault(w, f) => Ran { world: w, result: Err(f) },
        }
    }
}

/// The activation goes on with the next instruction.
pub open spec fn next<H>(world: World<H>, frame: Frame, vars: DataView) -> Stepped<H> {
    Stepped::Next(world, (frame.pc + 1) as usize, vars, frame.has_state)
}

/// The frame at `target`, or the fault of a target outside the code.
pub open spec fn jump<H>(world: World<H>, frame: Frame, vars: DataView, target: int) -> Stepped<
    H,
> {
    if 0 <= target <= frame.code.len() {
        Stepped::Next(world, target as usize, vars, frame.has_state)
    } else {
        Stepped::Fault(world, Fault::KeyError)
    }
}

/// The variables after the fields of an arm were taken out of a record's
/// fields and bound, from the `i`th field on.
pub open spec fn destructure(fields: Seq<Seq<char>>, i: int, record: DataView, vars: DataView)
    -> Result<DataView, Fault>
    decreases fields.len() - i,
{
    if i < 0 || i >= fields.len() {
        Ok(vars)
    } else {
        match dict_get(record, fields[i]) {
            None => Err(Fault::KeyError),
            Some(v) => destructure(
                fields,
                i + 1,
                dict_remove(record, fields[i]),
                dict_insert(vars, fields[i], v),
            ),
        }
    }
}

/// The variables after the values were bound to the names, in order, as far
/// as both go, from the `i`th on.
pub open spec fn assign(names: Seq<Seq<char>>, vals: Seq<FieldView>, i: int, vars: DataView)
    -> DataView
    decreases names.len() - i,
{
    if i < 0 || i >= names.len() || i >= vals.len() {
        vars
    } else {
        assign(names, vals, i + 1, dict_insert(vars, names[i], vals[i]))
    }
}

/// The world after `object` began a wait of the duration `val`, to go on in
/// `action_name` at `resume`: the host says when that is, and the wake-up is
/// put in. A value that is no duration is a `TypeMismatch`.
pub open spec fn begin_wait<H: Flop>(
    world: World<H>,
    object: Object,
    action_name: Seq<char>,
    val: FieldView,
    resume: usize,
) -> Result<World<H>, (World<H>, Fault)> {
    match val {
        FieldView::Num(duration) => match H::advance_model(world.totem.queue.now, duration) {
            None => Err((world, Fault::TypeMismatch)),
            Some(time) => if world.totem.queue.next_id == usize::MAX {
                Err(
                    (
                        World { totem: world.totem.cancel_pending(object), host: world.host },
                        Fault::LimitReached,
                    ),
                )
            } else {
                Ok(
                    World {
                        totem: world.totem.schedule(object, action_name, resume, time),
                        host: world.host,
                    },
                )
            },
        },
        _ => Err((world, Fault::TypeMismatch)),
    }
}

/// The effect of the instruction at which `frame` stands.
pub open spec fn step<H: Flop>(
    types: TypesView,
    limits: Limits,
    world: World<H>,
    frame: Frame,
    depth: nat,
) -> Stepped<H>
    decreases 6 * depth + 3, 2int,
{
    perform(types, limits, world, frame, frame.code[frame.pc as int], depth)
}

/// The effect of the instruction `instr` on the activation `frame`, whose
/// program counter is the place of the instruction.
#[verifier::opaque]
pub open spec fn perform<H: Flop>(
    types: TypesView,
    limits: Limits,
    world: World<H>,
    frame: Frame,
    instr: StatementView,
    depth: nat,
) -> Stepped<H>
    decreases 6 * depth + 3, 1int,
{
    let object = frame.object;
    match instr {
        StatementView::Debug(text) => next(
            World { totem: world.totem.emit(OutputView::Text(text)), host: world.host },
            frame,
            frame.vars,
        ),
        StatementView::CancelWait => Stepped::Next(
            World { totem: world.totem.clear_state(object), host: world.host },
            (frame.pc + 1) as usize,
            frame.vars,
            false,
        ),
        StatementView::Continue(back) => jump(world, frame, frame.vars, frame.pc - back),
        StatementView::Jump(skip) => jump(world, frame, frame.vars, frame.pc + skip),
        StatementView::GotoAlg { table, alg_name, args } => goto(
            types,
            limits,
            world,
            frame,
            table,
            alg_name,
            args,
            depth,
        ),
        StatementView::ContinueLoop => Stepped::Exit(
            world,
            frame.has_state,
            AlgorithmResultView::ContinueLoop { vars: frame.vars },
        ),
        StatementView::DebugNums(_) => step_debug_nums(types, limits, world, frame, instr, depth),
        StatementView::Evaluate { .. } => step_evaluate(types, limits, world, frame, instr, depth),
        StatementView::State(_) => step_state(types, limits, world, frame, instr, depth),
        StatementView::Wait(_) => step_wait(types, limits, world, frame, instr, depth),
        StatementView::Return(_) => step_return(types, limits, world, frame, instr, depth),
        StatementView::Branch { .. } => step_branch(types, limits, world, frame, instr, depth),
        StatementView::PatternBranch { .. } => step_pattern(
            types,
            limits,
            world,
            frame,
            instr,
            depth,
        ),
        StatementView::SetAdd { .. } => step_set_add(types, limits, world, frame, instr, depth),
        StatementView::SetRemove { .. } => step_set_remove(
            types,
            limits,
            world,
            frame,
            instr,
            depth,
        ),
        StatementView::SetIterate { .. } => step_iterate(types, limits, world, frame, instr, depth),
    }
}

/// The effect of writing numbers.
#[verifier::opaque]
pub open spec fn step_debug_nums<H: Flop>(
    types: TypesView,
    limits: Limits,
    world: World<H>,
    frame: Frame,
    instr: StatementView,
    depth: nat,
) -> Stepped<H>
    decreases 6 * depth + 3, 0int,
{
    let object = frame.object;
    match instr {
        StatementView::DebugNums(exprs) => {
            let r = eval_list(
                types,
                limits,
                world,
                frame.vars,
                object,
                exprs,
                0,
                Seq::empty(),
                depth,
            );
            match r.result {
                Err(f) => Stepped::Fault(r.world, f),
                Ok(vals) => match nums_of(vals) {
                    None => Stepped::Fault(r.world, Fault::TypeMismatch),
                    Some(nums) => next(
                        World {
                            totem: r.world.totem.emit(OutputView::Nums(nums)),
                            host: r.world.host,
                        },
                        frame,
                        r.vars,
                    ),
                },
            }
        },
        _ => Stepped::Fault(world, Fault::TypeMismatch),
    }
}

/// The effect of an evaluation: the values are bound to the names.
#[verifier::opaque]
pub open spec fn step_evaluate<H: Flop>(
    types: TypesView,
    limits: Limits,
    world: World<H>,
    frame: Frame,
    instr: StatementView,
    depth: nat,
) -> Stepped<H>
    decreases 6 * depth + 3, 0int,
{
    let object = frame.object;
    match instr {
        StatementView::Evaluate { expressions, results } => {
            let r = eval_list(
                types,
                limits,
                world,
                frame.vars,
                object,
                expressions,
                0,
                Seq::empty(),
                depth,
            );
            match r.result {
                Err(f) => Stepped::Fault(r.world, f),
                Ok(vals) => next(r.world, frame, assign(results, vals, 0, r.vars)),
            }
        },
        _ => Stepped::Fault(world, Fault::TypeMismatch),
    }
}

/// The effect of setting the resting state: a violation where the object rests already.
#[verifier::opaque]
pub open spec fn step_state<H: Flop>(
    types: TypesView,
    limits: Limits,
    world: World<H>,
    frame: Frame,
    instr: StatementView,
    depth: nat,
) -> Stepped<H>
    decreases 6 * depth + 3, 0int,
{
    let object = frame.object;
    match instr {
        StatementView::State(e) => if frame.has_state {
            Stepped::Fault(world, Fault::ProtocolViolation)
        } else {
            let r = single(eval(types, limits, world, frame.vars, object, e, depth));
            match r.result {
                Err(f) => Stepped::Fault(r.world, f),
                Ok(vals) => match vals[0] {
                    FieldView::Data(name, data) => Stepped::Next(
                        World {
                            totem: r.world.totem.set_state(object, name, data),
                            host: r.world.host,
                        },
                        (frame.pc + 1) as usize,
                        r.vars,
                        true,
                    ),
                    _ => Stepped::Fault(r.world, Fault::TypeMismatch),
                },
            }
        },
        _ => Stepped::Fault(world, Fault::TypeMismatch),
    }
}

/// The effect of a wait: the wake-up is put in and the activation ends.
#[verifier::opaque]
pub open spec fn step_wait<H: Flop>(
    types: TypesView,
    limits: Limits,
    world: World<H>,
    frame: Frame,
    instr: StatementView,
    depth: nat,
) -> Stepped<H>
    decreases 6 * depth + 3, 0int,
{
    let object = frame.object;
    match instr {
        StatementView::Wait(e) => {
            let r = single(eval(types, limits, world, frame.vars, object, e, depth));
            match r.result {
                Err(f) => Stepped::Fault(r.world, f),
                Ok(vals) => match begin_wait(
                    r.world,
                    frame.object,
                    frame.action_name,
                    vals[0],
                    (frame.pc + 1) as usize,
                ) {
                    Err(e) => Stepped::Fault(e.0, e.1),
                    Ok(w) => Stepped::Exit(
                        w,
                        frame.has_state,
                        AlgorithmResultView::ReturnVals(Seq::empty()),
                    ),
                },
            }
        },
        _ => Stepped::Fault(world, Fault::TypeMismatch),
    }
}

/// The effect of a return: the activation ends with the values. Where a
/// wait stands directly behind the return, the wait is begun all the same,
/// and the object goes on behind it when its wake-up fires.
#[verifier::opaque]
pub open spec fn step_return<H: Flop>(
    types: TypesView,
    limits: Limits,
    world: World<H>,
    frame: Frame,
    instr: StatementView,
    depth: nat,
) -> Stepped<H>
    decreases 6 * depth + 3, 0int,
{
    let object = frame.object;
    match instr {
        StatementView::Return(exprs) => {
            let r = eval_list(
                types,
                limits,
                world,
                frame.vars,
                object,
                exprs,
                0,
                Seq::empty(),
                depth,
            );
            match r.result {
                Err(f) => Stepped::Fault(r.world, f),
                Ok(vals) => {
                    let next = frame.pc + 1;
                    if next < frame.code.len() && frame.code[next] is Wait {
                        let t = single(
                            eval(
                                types,
                                limits,
                                r.world,
                                r.vars,
                                object,
                                frame.code[next]->Wait_0,
                                depth,
                            ),
                        );
                        match t.result {
                            Err(f) => Stepped::Fault(t.world, f),
                            Ok(duration) => match begin_wait(
                                t.world,
                                object,
                                frame.action_name,
                                duration[0],
                                (next + 1) as usize,
                            ) {
                                Err(e) => Stepped::Fault(e.0, e.1),
                                Ok(w) => Stepped::Exit(
                                    w,
                                    frame.has_state,
                                    AlgorithmResultView::ReturnVals(vals),
                                ),
                            },
                        }
                    } else {
                        Stepped::Exit(
                            r.world,
                            frame.has_state,
                            AlgorithmResultView::ReturnVals(vals),
                        )
                    }
                },
            }
        },
        _ => Stepped::Fault(world, Fault::TypeMismatch),
    }
}

/// The effect of a branch: on where the condition holds, ahead where it does not.
#[verifier::opaque]
pub open spec fn step_branch<H: Flop>(
    types: TypesView,
    limits: Limits,
    world: World<H>,
    frame: Frame,
    instr: StatementView,
    depth: nat,
) -> Stepped<H>
    decreases 6 * depth + 3, 0int,
{
    let object = frame.object;
    match instr {
        StatementView::Branch { condition, break_offset } => {
            let r = single(eval(types, limits, world, frame.vars, object, condition, depth));
            match r.result {
                Err(f) => Stepped::Fault(r.world, f),
                Ok(vals) => match view_bool(vals[0]) {
                    None => Stepped::Fault(r.world, Fault::TypeMismatch),
                    Some(true) => next(r.world, frame, r.vars),
                    Some(false) => jump(r.world, frame, r.vars, frame.pc + break_offset),
                },
            }
        },
        _ => Stepped::Fault(world, Fault::TypeMismatch),
    }
}

/// The effect of a pattern branch: to the arm whose tag the record has, its
/// fields bound, or to the default.
#[verifier::opaque]
pub open spec fn step_pattern<H: Flop>(
    types: TypesView,
    limits: Limits,
    world: World<H>,
    frame: Frame,
    instr: StatementView,
    depth: nat,
) -> Stepped<H>
    decreases 6 * depth + 3, 0int,
{
    let object = frame.object;
    match instr {
        StatementView::PatternBranch { data, arms, default_offset } => {
            let r = single(eval(types, limits, world, frame.vars, object, data, depth));
            match r.result {
                Err(f) => Stepped::Fault(r.world, f),
                Ok(vals) => match vals[0] {
                    FieldView::Data(tag, record) => match dict_get(arms, tag) {
                        None => jump(r.world, frame, r.vars, frame.pc + default_offset),
                        Some(arm) => match destructure(arm.fields, 0, record, r.vars) {
                            Err(f) => Stepped::Fault(r.world, f),
                            Ok(bound) => jump(r.world, frame, bound, frame.pc + arm.offset),
                        },
                    },
                    _ => Stepped::Fault(r.world, Fault::TypeMismatch),
                },
            }
        },
        _ => Stepped::Fault(world, Fault::TypeMismatch),
    }
}

/// The effect of adding a member to the set that a variable holds.
#[verifier::opaque]
pub open spec fn step_set_add<H: Flop>(
    types: TypesView,
    limits: Limits,
    world: World<H>,
    frame: Frame,
    instr: StatementView,
    depth: nat,
) -> Stepped<H>
    decreases 6 * depth + 3, 0int,
{
    let object = frame.object;
    match instr {
        StatementView::SetAdd { set_name, to_add } => {
            let r = single(eval(types, limits, world, frame.vars, object, to_add, depth));
            match r.result {
                Err(f) => Stepped::Fault(r.world, f),
                Ok(vals) => match (vals[0], dict_get(r.vars, set_name)) {
                    (_, None) => Stepped::Fault(r.world, Fault::KeyError),
                    (FieldView::VRef(x), Some(FieldView::ObjectSet(s))) => next(
                        r.world,
                        frame,
                        dict_insert(r.vars, set_name, FieldView::ObjectSet(set_add(s, x))),
                    ),
                    _ => Stepped::Fault(r.world, Fault::TypeMismatch),
                },
            }
        },
        _ => Stepped::Fault(world, Fault::TypeMismatch),
    }
}

/// The effect of removing a member from the set that a variable holds.
#[verifier::opaque]
pub open spec fn step_set_remove<H: Flop>(
    types: TypesView,
    limits: Limits,
    world: World<H>,
    frame: Frame,
    instr: StatementView,
    depth: nat,
) -> Stepped<H>
    decreases 6 * depth + 3, 0int,
{
    let object = frame.object;
    match instr {
        StatementView::SetRemove { set_name, to_remove } => {
            let r = single(eval(types, limits, world, frame.vars, object, to_remove, depth));
            match r.result {
                Err(f) => Stepped::Fault(r.world, f),
                Ok(vals) => match (vals[0], dict_get(r.vars, set_name)) {
                    (_, None) => Stepped::Fault(r.world, Fault::KeyError),
                    (FieldView::VRef(x), Some(FieldView::ObjectSet(s))) => next(
                        r.world,
                        frame,
                        dict_insert(r.vars, set_name, FieldView::ObjectSet(set_remove(s, x.data))),
                    ),
                    _ => Stepped::Fault(r.world, Fault::TypeMismatch),
                },
            }
        },
        _ => Stepped::Fault(world, Fault::TypeMismatch),
    }
}

/// The effect of a loop over a set: the set is taken out of the variables,
/// the body runs once for each member, and the set is put back.
#[verifier::opaque]
pub open spec fn step_iterate<H: Flop>(
    types: TypesView,
    limits: Limits,
    world: World<H>,
    frame: Frame,
    instr: StatementView,
    depth: nat,
) -> Stepped<H>
    decreases 6 * depth + 3, 0int,
{
    let object = frame.object;
    match instr {
        StatementView::SetIterate { var_name, set_name, break_offset } => match dict_get(
            frame.vars,
            set_name,
        ) {
            None => Stepped::Fault(world, Fault::KeyError),
            Some(FieldView::ObjectSet(s)) => {
                let r = iterate(
                    types,
                    limits,
                    world,
                    frame,
                    var_name,
                    s,
                    0,
                    dict_remove(frame.vars, set_name),
                    depth,
                );
                match r.1 {
                    Err(f) => Stepped::Fault(r.0, f),
                    Ok(vars) => jump(
                        r.0,
                        frame,
                        dict_insert(vars, set_name, FieldView::ObjectSet(s)),
                        frame.pc + break_offset + 1,
                    ),
                }
            },
            Some(_) => Stepped::Fault(world, Fault::TypeMismatch),
        },
        _ => Stepped::Fault(world, Fault::TypeMismatch),
    }
}

/// The rounds of a loop over the members of a set from the `k`th on: each
/// binds the loop variable and runs the body, nested, to its marker.
#[verifier::opaque]
pub open spec fn iterate<H: Flop>(
    types: TypesView,
    limits: Limits,
    world: World<H>,
    frame: Frame,
    var_name: Seq<char>,
    members: Members,
    k: int,
    vars: DataView,
    depth: nat,
) -> (World<H>, Result<DataView, Fault>)
    decreases 6 * depth + 2, members.len() - k,
{
    if k < 0 || k >= members.len() {
        (world, Ok(vars))
    } else if depth == 0 {
        (world, Err(Fault::LimitReached))
    } else {
        let r = run(
            types,
            limits,
            world,
            Frame {
                pc: (frame.pc + 1) as usize,
                vars: dict_insert(vars, var_name, FieldView::VRef(members[k])),
                ..frame
            },
            limits.steps as nat,
            (depth - 1) as nat,
        );
        match r.result {
            Err(f) => (r.world, Err(f)),
            Ok(AlgorithmResultView::ContinueLoop { vars: after }) => iterate(
                types,
                limits,
                r.world,
                frame,
                var_name,
                members,
                k + 1,
                after,
                depth,
            ),
            Ok(_) => (r.world, Err(Fault::ProtocolViolation)),
        }
    }
}

/// The effect of a tail dispatch: where a wait follows it, the wake-up of
/// this activation is put in first; then the destination is found, the
/// arguments are evaluated and bound, and the activation ends by handing
/// over. Code that follows and can never run is reported in the output.
#[verifier::opaque]
pub open spec fn goto<H: Flop>(
    types: TypesView,
    limits: Limits,
    world: World<H>,
    frame: Frame,
    table: TablePathView,
    alg_name: Seq<char>,
    args: Seq<ExpressionView>,
    depth: nat,
) -> Stepped<H>
    decreases 6 * depth + 2, 0int,
{
    let next = frame.pc + 1;
    let waited = if next < frame.code.len() && frame.code[next] is Wait {
        let r = single(
            eval(types, limits, world, frame.vars, frame.object, frame.code[next]->Wait_0, depth),
        );
        match r.result {
            Err(f) => Err((r.world, f)),
            Ok(vals) => match begin_wait(
                r.world,
                frame.object,
                frame.action_name,
                vals[0],
                (next + 1) as usize,
            ) {
                Err(e) => Err(e),
                Ok(w) => Ok((w, r.vars)),
            },
        }
    } else if next < frame.code.len() {
        Ok(
            (
                World {
                    totem: world.totem.emit(OutputView::Text(dead_code_warning())),
                    host: world.host,
                },
                frame.vars,
            ),
        )
    } else {
        Ok((world, frame.vars))
    };
    match waited {
        Err(e) => Stepped::Fault(e.0, e.1),
        Ok((w1, vars1)) => {
            let found: Result<(World<H>, Object, Seq<char>, bool), Fault> = match table {
                TablePathView::Virtual(name) => match dict_get(vars1, name) {
                    None => Err(Fault::KeyError),
                    Some(FieldView::VRef(r)) => Ok((w1, r.data, r.table, true)),
                    Some(_) => Err(Fault::TypeMismatch),
                },
                TablePathView::Static(object_type, table_name) => Ok(
                    (
                        World { totem: w1.totem.with_fresh(object_type), host: w1.host },
                        w1.totem.objects.len() as Object,
                        table_name,
                        false,
                    ),
                ),
            };
            match found {
                Err(f) => Stepped::Fault(w1, f),
                Ok((w2, target, table_name, has_state)) => {
                    let a = eval_list(
                        types,
                        limits,
                        w2,
                        vars1,
                        frame.object,
                        args,
                        0,
                        Seq::empty(),
                        depth,
                    );
                    match a.result {
                        Err(f) => Stepped::Fault(a.world, f),
                        Ok(vals) => if !a.world.totem.has(target) {
                            Stepped::Fault(a.world, Fault::KeyError)
                        } else {
                            let object_type = a.world.totem.objects[target as int].object_type;
                            match algorithm_name(types, object_type, table_name, alg_name) {
                                None => Stepped::Fault(a.world, Fault::KeyError),
                                Some(name) => match algorithm(types, object_type, name) {
                                    None => Stepped::Fault(a.world, Fault::KeyError),
                                    Some(alg) => Stepped::Exit(
                                        a.world,
                                        frame.has_state,
                                        AlgorithmResultView::ExternContinuation {
                                            object: target,
                                            action_name: name,
                                            vars: bind(alg.param_list, vals),
                                            has_state,
                                        },
                                    ),
                                },
                            }
                        },
                    }
                },
            }
        },
    }
}

/// The line that reports code behind a tail dispatch.
pub open spec fn dead_code_warning() -> Seq<char> {
    "Warning: code after a tail dispatch is not executed"@
}

/// The construction of an object through a table of its type: the table
/// names the constructor, which runs on a fresh object to its completion or
/// first wait. The result is the object, bound to that table.
pub open spec fn init<H: Flop>(
    types: TypesView,
    limits: Limits,
    world: World<H>,
    object_type: Seq<char>,
    table_name: Seq<char>,
    init_name: Seq<char>,
    args: Seq<FieldView>,
) -> (World<H>, Result<ObjectRefView, Fault>) {
    match algorithm_name(types, object_type, table_name, init_name) {
        None => (world, Err(Fault::KeyError)),
        Some(alg_name) => {
            let c = construct(
                types,
                limits,
                world,
                object_type,
                alg_name,
                args,
                limits.depth as nat,
            );
            match c.result {
                Ok(new) => (c.world, Ok(ObjectRefView { table: table_name, data: new })),
                Err(f) => (c.world, Err(f)),
            }
        },
    }
}

/// One turn of the scheduler: nothing where no wake-up is pending; else the
/// clock moves on to the first one, which leaves the queue and resumes its
/// object. The result says whether a wake-up fired.
pub open spec fn pump<H: Flop>(types: TypesView, limits: Limits, world: World<H>) -> (
    World<H>,
    Result<bool, Fault>,
) {
    if world.totem.queue.pending.len() == 0 {
        (world, Ok(false))
    } else {
        let event = world.totem.queue.pending[0].event;
        let fired = World {
            totem: TotemView { queue: world.totem.queue.advance(), ..world.totem },
            host: world.host,
        };
        let c = resume(types, limits, fired, event.object, event.action_name, event.pc);
        match c.result {
            Ok(_) => (c.world, Ok(true)),
            Err(f) => (c.world, Err(f)),
        }
    }
}

/// Up to `turns` turns of the scheduler, until no wake-up is pending or a
/// turn faults. The result is the number of wake-ups that fired.
pub open spec fn pump_many<H: Flop>(
    types: TypesView,
    limits: Limits,
    world: World<H>,
    turns: nat,
    fired: nat,
) -> (World<H>, Result<nat, Fault>)
    decreases turns,
{
    if turns == 0 {
        (world, Ok(fired))
    } else {
        let p = pump(types, limits, world);
        match p.1 {
            Err(f) => (p.0, Err(f)),
            Ok(false) => (p.0, Ok(fired)),
            Ok(true) => pump_many(types, limits, p.0, (turns - 1) as nat, fired + 1),
        }
    }
}

/// How an activation begins, as a value.
pub enum ExecTypeView {
    Ctor(Seq<FieldView>),
    Fun(Seq<FieldView>),
    Resume(usize),
}

/// A call of the algorithm `algorithm_name` on `object` from outside: a
/// constructor or a function with its arguments bound to the parameters, or
/// the resumption of the object at a program counter. A constructor begins
/// with the flag unset, a function with the flag set.
pub open spec fn execute<H: Flop>(
    types: TypesView,
    limits: Limits,
    world: World<H>,
    object: Object,
    algorithm_name: Seq<char>,
    input: ExecTypeView,
) -> Called<H> {
    match input {
        ExecTypeView::Resume(pc) => resume(types, limits, world, object, algorithm_name, pc),
        _ => if !world.totem.has(object) {
            Called { world, result: Err(Fault::KeyError) }
        } else {
            match algorithm(
                types,
                world.totem.objects[object as int].object_type,
                algorithm_name,
            ) {
                None => Called { world, result: Err(Fault::KeyError) },
                Some(alg) => call(
                    types,
                    limits,
                    world,
                    Start {
                        object,
                        action_name: algorithm_name,
                        vars: bind(
                            alg.param_list,
                            match input {
                                ExecTypeView::Ctor(args) => args,
                                ExecTypeView::Fun(args) => args,
                                ExecTypeView::Resume(_) => Seq::empty(),
                            },
                        ),
                        pc: 0,
                        has_state: input is Fun,
                    },
                    limits.steps as nat,
                    limits.depth as nat,
                ),
            }
        },
    }
}

/// The expressions of an instruction that evaluates a list.
pub open spec fn listed(instr: StatementView) -> Seq<ExpressionView> {
    match instr {
        StatementView::DebugNums(exprs) => exprs,
        StatementView::Evaluate { expressions, .. } => expressions,
        StatementView::Return(exprs) => exprs,
        _ => Seq::empty(),
    }
}

/// The expression of an instruction that evaluates one.
pub open spec fn sole(instr: StatementView) -> ExpressionView {
    match instr {
        StatementView::State(e) => e,
        StatementView::Wait(e) => e,
        StatementView::Branch { condition, .. } => condition,
        StatementView::PatternBranch { data, .. } => data,
        StatementView::SetAdd { to_add, .. } => to_add,
        StatementView::SetRemove { to_remove, .. } => to_remove,
        _ => ExpressionView::SelfObject,
    }
}

} // verus!
