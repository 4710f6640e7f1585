//! The interpreter: it evaluates expressions and runs activations on the
//! store.

use vstd::prelude::*;
use vstd::string::*;
use crate::ast::CompareOp;
use crate::data::{
    bool_view, data_view, fields_view, is_name, lemma_data_view, lemma_fields_view_add,
    lemma_fields_view_push, lemma_record_view, strong, Data, DataView, Field, FieldView, Num,
    Object, ObjectData, ObjectRef, ObjectRefView, ObjectSet, Output, Totem, TotemView,
};
use crate::event::Time;
use crate::instance::Flop;
use crate::item::{get_algorithm, get_algorithm_name, types_view, ObjectType};
use crate::prelude::{dict_get, dict_insert, Dict, Entries, Fault};
use crate::runtime::{
    code_view, exprs_view, links_view, named_exprs_view, names_view, Algorithm, ArithOp,
    Expression, ExpressionView, Statement, TablePath,
};
use crate::validity::{
    host_keeps_valid, law_construct_keeps_valid, law_invoke_keeps_valid, law_resume_keeps_valid,
    valid_data, valid_fields, valid_store,
};
use crate::semantics::{
    assign, begin_wait, bind, bind_upto, call, construct, destructure, eval, eval_arith,
    eval_chain, eval_comparison, eval_data, eval_exec_object, eval_extern_call, eval_fields,
    eval_init_object, eval_list, eval_virtualize, goto, init, invoke, iterate, nums_of, resume,
    run,
    set_builtin,
    perform, single, step, step_branch, step_debug_nums, step_evaluate, step_iterate, step_pattern,
    step_return, step_set_add, step_set_remove, step_state, step_wait, AlgorithmResultView,
    Called, Constructed, Evaluated, ExecTypeView, Frame, Limits, Start, Stepped, World,
};

verus! {

/// How an activation begins: a constructor on a fresh object, a function on
/// an object that rests, or the resumption of one at a program counter.
#[derive(Debug)]
pub enum ExecType {
    Ctor(Vec<Field>),
    Fun(Vec<Field>),
    Resume(usize),
}

/// How an activation ended.
#[derive(Debug)]
pub enum AlgorithmResult {
    ExternContinuation { object: Object, action_name: String, vars: Data, has_state: bool },
    ContinueLoop { vars: Data },
    ReturnVals(Vec<Field>),
}

impl View for AlgorithmResult {
    type V = AlgorithmResultView;

    open spec fn view(&self) -> AlgorithmResultView {
        match self {
            AlgorithmResult::ExternContinuation { object, action_name, vars, has_state } => {
                AlgorithmResultView::ExternContinuation {
                    object: *object,
                    action_name: action_name@,
                    vars: data_view(vars@),
                    has_state: *has_state,
                }
            },
            AlgorithmResult::ContinueLoop { vars } => AlgorithmResultView::ContinueLoop {
                vars: data_view(vars@),
            },
            AlgorithmResult::ReturnVals(vals) => AlgorithmResultView::ReturnVals(
                fields_view(vals@),
            ),
        }
    }
}

/// Whether an evaluation came out as the model `m` says: in that world, and
/// with those values and variables or that fault.
pub open spec fn evaluated<H>(
    m: Evaluated<H>,
    totem: TotemView,
    host: H,
    vars: DataView,
    r: Result<Seq<FieldView>, Fault>,
) -> bool {
    &&& m.world == World { totem, host }
    &&& match r {
        Ok(vals) => m.result == Ok::<Seq<FieldView>, Fault>(vals) && m.vars == vars,
        Err(f) => m.result == Err::<Seq<FieldView>, Fault>(f),
    }
}

/// The views of the values, or the fault.
pub open spec fn values_view(r: Result<Vec<Field>, Fault>) -> Result<Seq<FieldView>, Fault> {
    match r {
        Ok(v) => Ok(fields_view(v@)),
        Err(f) => Err(f),
    }
}

/// The view of the one value, or the fault.
pub open spec fn value_view(r: Result<Field, Fault>) -> Result<Seq<FieldView>, Fault> {
    match r {
        Ok(v) => Ok(seq![v@]),
        Err(f) => Err(f),
    }
}

/// Binds the parameters of an algorithm to arguments, in order, as far as
/// both go.
#[verifier::spinoff_prover]
pub fn bind_args(params: &Vec<String>, args: &Vec<Field>) -> (r: Data)
    ensures
        data_view(r@) == bind(names_view(params@), fields_view(args@)),
{
    let mut r: Data = Dict::new();
    let n = if params.len() <= args.len() {
        params.len()
    } else {
        args.len()
    };
    let mut i: usize = 0;
    assert(data_view(r@) =~= bind_upto(names_view(params@), fields_view(args@), 0));
    while i < n
        invariant
            n <= params@.len(),
            n <= args@.len(),
            i <= n,
            data_view(r@) == bind_upto(names_view(params@), fields_view(args@), i as int),
        decreases n - i,
    {
        proof {
            lemma_data_view(r@, params@[i as int]@);
        }
        let _ = r.insert(params[i].clone(), args[i].clone());
        i += 1;
    }
    r
}

/// A list of one value.
#[verifier::spinoff_prover]
fn one(val: Field) -> (r: Vec<Field>)
    ensures
        r@ == seq![val],
        fields_view(r@) == seq![val@],
{
    let mut r: Vec<Field> = Vec::new();
    r.push(val);
    proof {
        lemma_fields_view_push(Seq::empty(), val);
        assert(r@ =~= seq![val]);
    }
    r
}

/// An empty list of values.
#[verifier::spinoff_prover]
fn none() -> (r: Vec<Field>)
    ensures
        r@ == Seq::<Field>::empty(),
        fields_view(r@) == Seq::<FieldView>::empty(),
{
    proof {
        lemma_fields_view_push(Seq::empty(), Field::TRef(0));
    }
    Vec::new()
}

/// The operation of an arithmetic expression.
#[verifier::spinoff_prover]
fn arith_op(e: &Expression) -> (r: ArithOp)
    requires
        e@ is Arith,
    ensures
        r == e@->Arith_0,
{
    match e {
        Expression::Add(_, _) => ArithOp::Add,
        Expression::Sub(_, _) => ArithOp::Sub,
        Expression::Mul(_, _) => ArithOp::Mul,
        Expression::Div(_, _) => ArithOp::Div,
        _ => ArithOp::Pow,
    }
}

/// Evaluates an expression that must give exactly one value.
#[verifier::spinoff_prover]
pub fn evaluate_expression<H: Flop>(
    totem: &mut Totem,
    host: &mut H,
    types: &Dict<ObjectType>,
    limits: Limits,
    expression: &Expression,
    vars: &mut Data,
    object: Object,
    depth: usize,
) -> (r: Result<Field, Fault>)
    requires
        old(totem)@.wf(),
        old(totem)@.has(object),
    ensures
        final(totem)@.wf(),
        final(totem)@.objects.len() >= old(totem)@.objects.len(),
        evaluated(
            single(
                eval(
                    types_view(types@),
                    limits,
                    World { totem: old(totem)@, host: *old(host) },
                    data_view(old(vars)@),
                    object,
                    expression@,
                    depth as nat,
                ),
            ),
            final(totem)@,
            *final(host),
            data_view(final(vars)@),
            value_view(r),
        ),
        host_keeps_valid::<H>() && valid_store(old(totem)@) && valid_data(data_view(old(vars)@))
            ==> valid_store(final(totem)@) && (r matches Ok(v) ==> crate::validity::valid_field(v@)
            && valid_data(data_view(final(vars)@))),
    decreases 6 * depth + 1, 0int, *expression, 2int,
{
    proof {
        if host_keeps_valid::<H>() && valid_store(totem@) && valid_data(data_view(vars@)) {
            crate::validity::lemma_eval(
                types_view(types@),
                limits,
                World { totem: totem@, host: *host },
                data_view(vars@),
                object,
                expression@,
                depth as nat,
            );
        }
    }
    let mut vals = evaluate_expression_values(
        totem,
        host,
        types,
        limits,
        expression,
        vars,
        object,
        depth,
    )?;
    if vals.len() != 1 {
        return Err(Fault::TypeMismatch);
    }
    let ghost all = vals@;
    let val = vals.pop().unwrap();
    assert(fields_view(all) =~= seq![val@]);
    assert(fields_view(all)[0] == val@);
    Ok(val)
}

/// Evaluates the expressions one after the other and gives their values in
/// that order.
#[verifier::spinoff_prover]
#[verifier::loop_isolation(false)]
pub fn evaluate_expressions<H: Flop>(
    totem: &mut Totem,
    host: &mut H,
    types: &Dict<ObjectType>,
    limits: Limits,
    expressions: &Vec<Expression>,
    vars: &mut Data,
    object: Object,
    depth: usize,
) -> (r: Result<Vec<Field>, Fault>)
    requires
        old(totem)@.wf(),
        old(totem)@.has(object),
    ensures
        final(totem)@.wf(),
        final(totem)@.objects.len() >= old(totem)@.objects.len(),
        evaluated(
            eval_list(
                types_view(types@),
                limits,
                World { totem: old(totem)@, host: *old(host) },
                data_view(old(vars)@),
                object,
                exprs_view(expressions@),
                0,
                Seq::empty(),
                depth as nat,
            ),
            final(totem)@,
            *final(host),
            data_view(final(vars)@),
            values_view(r),
        ),
        host_keeps_valid::<H>() && valid_store(old(totem)@) && valid_data(data_view(old(vars)@))
            ==> valid_store(final(totem)@) && (r matches Ok(v) ==> valid_fields(fields_view(v@))
            && valid_data(data_view(final(vars)@))),
    decreases 6 * depth + 1, 0int, *expressions, 0int,
{
    proof {
        if host_keeps_valid::<H>() && valid_store(totem@) && valid_data(data_view(vars@)) {
            crate::validity::lemma_valid_lists(Seq::empty(), Seq::empty(), FieldView::TRef(0));
            crate::validity::lemma_eval_list(
                types_view(types@),
                limits,
                World { totem: totem@, host: *host },
                data_view(vars@),
                object,
                exprs_view(expressions@),
                0,
                Seq::empty(),
                depth as nat,
            );
        }
    }
    proof {
        reveal(eval_list);
    }
    let ghost goal = eval_list(
        types_view(types@),
        limits,
        World { totem: totem@, host: *host },
        data_view(vars@),
        object,
        exprs_view(expressions@),
        0,
        Seq::empty(),
        depth as nat,
    );
    let ghost first = totem@.objects.len();
    let mut result: Vec<Field> = Vec::new();
    let n = expressions.len();
    let mut i: usize = 0;
    proof {
        lemma_fields_view_push(result@, Field::TRef(0));
    }
    while i < n
        invariant
            n == expressions@.len(),
            i <= n,
            totem@.wf(),
            totem@.has(object),
            totem@.objects.len() >= first,
            goal == eval_list(
                types_view(types@),
                limits,
                World { totem: totem@, host: *host },
                data_view(vars@),
                object,
                exprs_view(expressions@),
                i as int,
                fields_view(result@),
                depth as nat,
            ),
        decreases n - i,
    {
        match evaluate_expression_into(
            totem,
            host,
            types,
            limits,
            &expressions[i],
            vars,
            object,
            &mut result,
            depth,
        ) {
            Ok(_) => {},
            Err(f) => {
                return Err(f);
            },
        }
        i += 1;
    }
    Ok(result)
}

/// Evaluates an expression and puts its values behind those that `result`
/// holds.
#[verifier::spinoff_prover]
pub fn evaluate_expression_into<H: Flop>(
    totem: &mut Totem,
    host: &mut H,
    types: &Dict<ObjectType>,
    limits: Limits,
    expression: &Expression,
    vars: &mut Data,
    object: Object,
    result: &mut Vec<Field>,
    depth: usize,
) -> (r: Result<(), Fault>)
    requires
        old(totem)@.wf(),
        old(totem)@.has(object),
    ensures
        final(totem)@.wf(),
        final(totem)@.objects.len() >= old(totem)@.objects.len(),
        ({
            let m = eval(
                types_view(types@),
                limits,
                World { totem: old(totem)@, host: *old(host) },
                data_view(old(vars)@),
                object,
                expression@,
                depth as nat,
            );
            &&& m.world == World { totem: final(totem)@, host: *final(host) }
            &&& match r {
                Ok(_) => m.result is Ok && m.vars == data_view(final(vars)@) && fields_view(
                    final(result)@,
                ) == fields_view(old(result)@) + m.result->Ok_0,
                Err(f) => m.result == Err::<Seq<FieldView>, Fault>(f) && final(result)@ == old(
                    result,
                )@,
            }
        }),
        host_keeps_valid::<H>() && valid_store(old(totem)@) && valid_data(data_view(old(vars)@))
            && valid_fields(fields_view(old(result)@)) ==> valid_store(final(totem)@) && (r is Ok
            ==> valid_fields(fields_view(final(result)@)) && valid_data(
            data_view(final(vars)@),
        )),
    decreases 6 * depth + 1, 0int, *expression, 2int,
{
    proof {
        if host_keeps_valid::<H>() && valid_store(totem@) && valid_data(data_view(vars@))
            && valid_fields(fields_view(result@)) {
            crate::validity::lemma_eval(
                types_view(types@),
                limits,
                World { totem: totem@, host: *host },
                data_view(vars@),
                object,
                expression@,
                depth as nat,
            );
            let m = eval(
                types_view(types@),
                limits,
                World { totem: totem@, host: *host },
                data_view(vars@),
                object,
                expression@,
                depth as nat,
            );
            if m.result is Ok {
                crate::validity::lemma_valid_lists(
                    fields_view(result@),
                    m.result->Ok_0,
                    FieldView::TRef(0),
                );
            }
        }
    }
    let ghost acc = result@;
    let mut vals = evaluate_expression_values(
        totem,
        host,
        types,
        limits,
        expression,
        vars,
        object,
        depth,
    )?;
    proof {
        lemma_fields_view_add(acc, vals@);
    }
    result.append(&mut vals);
    Ok(())
}

/// Evaluates an expression and gives its values: one for most expressions,
/// as many as were returned for a call.
#[verifier::spinoff_prover]
pub fn evaluate_expression_values<H: Flop>(
    totem: &mut Totem,
    host: &mut H,
    types: &Dict<ObjectType>,
    limits: Limits,
    expression: &Expression,
    vars: &mut Data,
    object: Object,
    depth: usize,
) -> (r: Result<Vec<Field>, Fault>)
    requires
        old(totem)@.wf(),
        old(totem)@.has(object),
    ensures
        final(totem)@.wf(),
        final(totem)@.objects.len() >= old(totem)@.objects.len(),
        evaluated(
            eval(
                types_view(types@),
                limits,
                World { totem: old(totem)@, host: *old(host) },
                data_view(old(vars)@),
                object,
                expression@,
                depth as nat,
            ),
            final(totem)@,
            *final(host),
            data_view(final(vars)@),
            values_view(r),
        ),
        host_keeps_valid::<H>() && valid_store(old(totem)@) && valid_data(data_view(old(vars)@))
            ==> valid_store(final(totem)@) && (r matches Ok(v) ==> valid_fields(fields_view(v@))
            && valid_data(data_view(final(vars)@))),
    decreases 6 * depth + 1, 0int, *expression, 1int,
{
    proof {
        if host_keeps_valid::<H>() && valid_store(totem@) && valid_data(data_view(vars@)) {
            crate::validity::lemma_eval(
                types_view(types@),
                limits,
                World { totem: totem@, host: *host },
                data_view(vars@),
                object,
                expression@,
                depth as nat,
            );
        }
    }
    proof {
        reveal(eval);
    }
    broadcast use lemma_record_view;

    proof {
        lemma_fields_view_push(Seq::empty(), Field::TRef(0));
    }
    match expression {
        Expression::Var(name) => {
            proof {
                lemma_data_view(vars@, name@);
            }
            match vars.get(name) {
                Some(v) => {
                    let val = v.clone();
                    proof {
                        lemma_fields_view_push(Seq::empty(), val);
                    }
                    Ok(one(val))
                },
                None => Err(Fault::KeyError),
            }
        },
        Expression::InitSet => {
            let val = Field::ObjectSet(ObjectSet::new());
            proof {
                lemma_fields_view_push(Seq::empty(), val);
            }
            Ok(one(val))
        },
        Expression::SelfObject => {
            let val = Field::TRef(object);
            proof {
                lemma_fields_view_push(Seq::empty(), val);
            }
            Ok(one(val))
        },
        Expression::SelfData => {
            let name = totem.objects[object].state_name.clone();
            let data = crate::data::clone_data(&totem.objects[object].data);
            let val = Field::Data(name, data);
            proof {
                lemma_fields_view_push(Seq::empty(), val);
            }
            Ok(one(val))
        },
        Expression::Const(x) => {
            let val = Field::Num(*x);
            proof {
                lemma_fields_view_push(Seq::empty(), val);
            }
            Ok(one(val))
        },
        Expression::InitObject { .. } => evaluate_init_object(
            totem,
            host,
            types,
            limits,
            expression,
            vars,
            object,
            depth,
        ),
        Expression::ExecObject { .. } => evaluate_exec_object(
            totem,
            host,
            types,
            limits,
            expression,
            vars,
            object,
            depth,
        ),
        Expression::ExternCall { .. } => evaluate_extern_call(
            totem,
            host,
            types,
            limits,
            expression,
            vars,
            object,
            depth,
        ),
        Expression::VirtualizeObject { .. } => evaluate_virtualize(
            totem,
            host,
            types,
            limits,
            expression,
            vars,
            object,
            depth,
        ),
        Expression::Data { .. } => evaluate_data(
            totem,
            host,
            types,
            limits,
            expression,
            vars,
            object,
            depth,
        ),
        Expression::Comparison(_, _) => evaluate_comparison(
            totem,
            host,
            types,
            limits,
            expression,
            vars,
            object,
            depth,
        ),
        _ => evaluate_arith(totem, host, types, limits, expression, vars, object, depth),
    }
}

/// Constructs an object and gives it bound to the table it was made through.
#[verifier::spinoff_prover]
#[verifier::loop_isolation(false)]
fn evaluate_init_object<H: Flop>(
    totem: &mut Totem,
    host: &mut H,
    types: &Dict<ObjectType>,
    limits: Limits,
    expression: &Expression,
    vars: &mut Data,
    object: Object,
    depth: usize,
) -> (r: Result<Vec<Field>, Fault>)
    requires
        old(totem)@.wf(),
        old(totem)@.has(object),
        *expression is InitObject,
    ensures
        final(totem)@.wf(),
        final(totem)@.objects.len() >= old(totem)@.objects.len(),
        evaluated(
            eval_init_object(
                types_view(types@),
                limits,
                World { totem: old(totem)@, host: *old(host) },
                data_view(old(vars)@),
                object,
                expression@,
                depth as nat,
            ),
            final(totem)@,
            *final(host),
            data_view(final(vars)@),
            values_view(r),
        ),
    decreases 6 * depth + 1, 0int, *expression, 0int,
{
    proof {
        reveal(eval_init_object);
    }
    broadcast use lemma_record_view;

    match expression {
        Expression::InitObject { object_type, table_name, init_name, args } => {
            let vals = evaluate_expressions(totem, host, types, limits, args, vars, object, depth)?;
            let alg_name = match get_algorithm_name(types, object_type, table_name, init_name) {
                Ok(name) => name.clone(),
                Err(f) => {
                    return Err(f);
                },
            };
            if depth == 0 {
                return Err(Fault::LimitReached);
            }
            let new = execute_ctor(
                totem,
                host,
                types,
                limits,
                object_type.clone(),
                alg_name,
                vals,
                depth - 1,
            )?;
            let val = Field::VRef(ObjectRef { table: table_name.clone(), data: new });
            proof {
                lemma_fields_view_push(Seq::empty(), val);
            }
            Ok(one(val))
        },
        _ => Err(Fault::TypeMismatch),
    }
}

/// Calls a method: a constructor where the name is no variable, a built-in
/// on a set, else an algorithm of the object that the variable holds.
#[verifier::spinoff_prover]
#[verifier::loop_isolation(false)]
fn evaluate_exec_object<H: Flop>(
    totem: &mut Totem,
    host: &mut H,
    types: &Dict<ObjectType>,
    limits: Limits,
    expression: &Expression,
    vars: &mut Data,
    object: Object,
    depth: usize,
) -> (r: Result<Vec<Field>, Fault>)
    requires
        old(totem)@.wf(),
        old(totem)@.has(object),
        *expression is ExecObject,
    ensures
        final(totem)@.wf(),
        final(totem)@.objects.len() >= old(totem)@.objects.len(),
        evaluated(
            eval_exec_object(
                types_view(types@),
                limits,
                World { totem: old(totem)@, host: *old(host) },
                data_view(old(vars)@),
                object,
                expression@,
                depth as nat,
            ),
            final(totem)@,
            *final(host),
            data_view(final(vars)@),
            values_view(r),
        ),
    decreases 6 * depth + 1, 0int, *expression, 0int,
{
    proof {
        reveal(eval_exec_object);
    }
    broadcast use lemma_record_view;

    match expression {
        Expression::ExecObject { object_name, action_name, args } => {
            let vals = evaluate_expressions(totem, host, types, limits, args, vars, object, depth)?;
            proof {
                lemma_data_view(vars@, object_name@);
            }
            let found = match vars.get(object_name) {
                None => None,
                Some(v) => Some(v.clone()),
            };
            match found {
                None => {
                    if depth == 0 {
                        return Err(Fault::LimitReached);
                    }
                    let new = execute_ctor(
                        totem,
                        host,
                        types,
                        limits,
                        object_name.clone(),
                        action_name.clone(),
                        vals,
                        depth - 1,
                    )?;
                    let val = Field::TRef(new);
                    proof {
                        lemma_fields_view_push(Seq::empty(), val);
                    }
                    Ok(one(val))
                },
                Some(Field::ObjectSet(set)) => evaluate_set_builtin(
                    vars,
                    object_name,
                    set,
                    action_name,
                    vals,
                ),
                Some(Field::TRef(target)) => execute_method(
                    totem,
                    host,
                    types,
                    limits,
                    target,
                    None,
                    action_name,
                    vals,
                    depth,
                ),
                Some(Field::VRef(r)) => execute_method(
                    totem,
                    host,
                    types,
                    limits,
                    r.data,
                    Some(&r.table),
                    action_name,
                    vals,
                    depth,
                ),
                Some(_) => Err(Fault::TypeMismatch),
            }
        },
        _ => Err(Fault::TypeMismatch),
    }
}

/// Calls a function of the host.
#[verifier::spinoff_prover]
#[verifier::loop_isolation(false)]
fn evaluate_extern_call<H: Flop>(
    totem: &mut Totem,
    host: &mut H,
    types: &Dict<ObjectType>,
    limits: Limits,
    expression: &Expression,
    vars: &mut Data,
    object: Object,
    depth: usize,
) -> (r: Result<Vec<Field>, Fault>)
    requires
        old(totem)@.wf(),
        old(totem)@.has(object),
        *expression is ExternCall,
    ensures
        final(totem)@.wf(),
        final(totem)@.objects.len() >= old(totem)@.objects.len(),
        evaluated(
            eval_extern_call(
                types_view(types@),
                limits,
                World { totem: old(totem)@, host: *old(host) },
                data_view(old(vars)@),
                object,
                expression@,
                depth as nat,
            ),
            final(totem)@,
            *final(host),
            data_view(final(vars)@),
            values_view(r),
        ),
    decreases 6 * depth + 1, 0int, *expression, 0int,
{
    proof {
        reveal(eval_extern_call);
    }
    broadcast use lemma_record_view;

    match expression {
        Expression::ExternCall { function_name, args } => {
            let vals = evaluate_expressions(totem, host, types, limits, args, vars, object, depth)?;
            Ok(host.extern_call(function_name, vals))
        },
        _ => Err(Fault::TypeMismatch),
    }
}

/// Binds an object to an interface.
#[verifier::spinoff_prover]
#[verifier::loop_isolation(false)]
fn evaluate_virtualize<H: Flop>(
    totem: &mut Totem,
    host: &mut H,
    types: &Dict<ObjectType>,
    limits: Limits,
    expression: &Expression,
    vars: &mut Data,
    object: Object,
    depth: usize,
) -> (r: Result<Vec<Field>, Fault>)
    requires
        old(totem)@.wf(),
        old(totem)@.has(object),
        *expression is VirtualizeObject,
    ensures
        final(totem)@.wf(),
        final(totem)@.objects.len() >= old(totem)@.objects.len(),
        evaluated(
            eval_virtualize(
                types_view(types@),
                limits,
                World { totem: old(totem)@, host: *old(host) },
                data_view(old(vars)@),
                object,
                expression@,
                depth as nat,
            ),
            final(totem)@,
            *final(host),
            data_view(final(vars)@),
            values_view(r),
        ),
    decreases 6 * depth + 1, 0int, *expression, 0int,
{
    proof {
        reveal(eval_virtualize);
    }
    broadcast use lemma_record_view;

    match expression {
        Expression::VirtualizeObject { interface_name, object: inner } => {
            let v = evaluate_expression(totem, host, types, limits, &**inner, vars, object, depth)?;
            match v {
                Field::TRef(target) => {
                    let val = Field::VRef(
                        ObjectRef { table: interface_name.clone(), data: target },
                    );
                    proof {
                        lemma_fields_view_push(Seq::empty(), val);
                    }
                    Ok(one(val))
                },
                _ => Err(Fault::TypeMismatch),
            }
        },
        _ => Err(Fault::TypeMismatch),
    }
}

/// Makes a record: evaluates the fields in order and puts them under the tag.
#[verifier::spinoff_prover]
#[verifier::loop_isolation(false)]
fn evaluate_data<H: Flop>(
    totem: &mut Totem,
    host: &mut H,
    types: &Dict<ObjectType>,
    limits: Limits,
    expression: &Expression,
    vars: &mut Data,
    object: Object,
    depth: usize,
) -> (r: Result<Vec<Field>, Fault>)
    requires
        old(totem)@.wf(),
        old(totem)@.has(object),
        *expression is Data,
    ensures
        final(totem)@.wf(),
        final(totem)@.objects.len() >= old(totem)@.objects.len(),
        evaluated(
            eval_data(
                types_view(types@),
                limits,
                World { totem: old(totem)@, host: *old(host) },
                data_view(old(vars)@),
                object,
                expression@,
                depth as nat,
            ),
            final(totem)@,
            *final(host),
            data_view(final(vars)@),
            values_view(r),
        ),
    decreases 6 * depth + 1, 0int, *expression, 0int,
{
    proof {
        reveal(eval_data);
        reveal(eval_fields);
    }
    broadcast use lemma_record_view;

    match expression {
        Expression::Data { name, fields } => {
            let ghost goal = eval_fields(
                types_view(types@),
                limits,
                World { totem: totem@, host: *host },
                data_view(vars@),
                object,
                named_exprs_view(fields.entries@),
                0,
                Seq::empty(),
                depth as nat,
            );
            let mut out: Data = Dict::new();
            let n = fields.entries.len();
            let mut i: usize = 0;
            assert(data_view(out@) =~= Seq::empty());
            while i < n
                invariant
                    n == fields.entries@.len(),
                    i <= n,
                    totem@.wf(),
                    totem@.has(object),
                    totem@.objects.len() >= old(totem)@.objects.len(),
                    goal == eval_fields(
                        types_view(types@),
                        limits,
                        World { totem: totem@, host: *host },
                        data_view(vars@),
                        object,
                        named_exprs_view(fields.entries@),
                        i as int,
                        data_view(out@),
                        depth as nat,
                    ),
                decreases n - i,
            {
                let v = evaluate_expression(
                    totem,
                    host,
                    types,
                    limits,
                    &fields.entries[i].1,
                    vars,
                    object,
                    depth,
                )?;
                proof {
                    lemma_data_view(out@, fields.entries@[i as int].0@);
                }
                let _ = out.insert(fields.entries[i].0.clone(), v);
                i += 1;
            }
            let val = Field::Data(name.clone(), out);
            proof {
                lemma_fields_view_push(Seq::empty(), val);
            }
            Ok(one(val))
        },
        _ => Err(Fault::TypeMismatch),
    }
}

/// Evaluates a comparison chain from left to right, up to the first link that fails.
#[verifier::spinoff_prover]
#[verifier::loop_isolation(false)]
fn evaluate_comparison<H: Flop>(
    totem: &mut Totem,
    host: &mut H,
    types: &Dict<ObjectType>,
    limits: Limits,
    expression: &Expression,
    vars: &mut Data,
    object: Object,
    depth: usize,
) -> (r: Result<Vec<Field>, Fault>)
    requires
        old(totem)@.wf(),
        old(totem)@.has(object),
        *expression is Comparison,
    ensures
        final(totem)@.wf(),
        final(totem)@.objects.len() >= old(totem)@.objects.len(),
        evaluated(
            eval_comparison(
                types_view(types@),
                limits,
                World { totem: old(totem)@, host: *old(host) },
                data_view(old(vars)@),
                object,
                expression@,
                depth as nat,
            ),
            final(totem)@,
            *final(host),
            data_view(final(vars)@),
            values_view(r),
        ),
    decreases 6 * depth + 1, 0int, *expression, 0int,
{
    proof {
        reveal(eval_comparison);
        reveal(eval_chain);
    }
    broadcast use lemma_record_view;

    match expression {
        Expression::Comparison(first, rest) => {
            let head = evaluate_expression(totem, host, types, limits, &**first, vars, object, depth)?;
            let mut x = head.num()?;
            let ghost goal = eval_chain(
                types_view(types@),
                limits,
                World { totem: totem@, host: *host },
                data_view(vars@),
                object,
                x,
                links_view(rest@),
                0,
                depth as nat,
            );
            let n = rest.len();
            let mut i: usize = 0;
            while i < n
                invariant
                    n == rest@.len(),
                    i <= n,
                    totem@.wf(),
                    totem@.has(object),
                    totem@.objects.len() >= old(totem)@.objects.len(),
                    goal == eval_chain(
                        types_view(types@),
                        limits,
                        World { totem: totem@, host: *host },
                        data_view(vars@),
                        object,
                        x,
                        links_view(rest@),
                        i as int,
                        depth as nat,
                    ),
                decreases n - i,
            {
                let v = evaluate_expression(
                    totem,
                    host,
                    types,
                    limits,
                    &rest[i].1,
                    vars,
                    object,
                    depth,
                )?;
                let y = v.num()?;
                if !host.compare(rest[i].0, x, y) {
                    let val = Field::from_bool(false);
                    proof {
                        lemma_fields_view_push(Seq::empty(), val);
                    }
                    return Ok(one(val));
                }
                x = y;
                i += 1;
            }
            let val = Field::from_bool(true);
            proof {
                lemma_fields_view_push(Seq::empty(), val);
            }
            Ok(one(val))
        },
        _ => Err(Fault::TypeMismatch),
    }
}

/// Evaluates both sides and lets the host compute.
#[verifier::spinoff_prover]
#[verifier::loop_isolation(false)]
fn evaluate_arith<H: Flop>(
    totem: &mut Totem,
    host: &mut H,
    types: &Dict<ObjectType>,
    limits: Limits,
    expression: &Expression,
    vars: &mut Data,
    object: Object,
    depth: usize,
) -> (r: Result<Vec<Field>, Fault>)
    requires
        old(totem)@.wf(),
        old(totem)@.has(object),
        expression@ is Arith,
    ensures
        final(totem)@.wf(),
        final(totem)@.objects.len() >= old(totem)@.objects.len(),
        evaluated(
            eval_arith(
                types_view(types@),
                limits,
                World { totem: old(totem)@, host: *old(host) },
                data_view(old(vars)@),
                object,
                expression@,
                depth as nat,
            ),
            final(totem)@,
            *final(host),
            data_view(final(vars)@),
            values_view(r),
        ),
    decreases 6 * depth + 1, 0int, *expression, 0int,
{
    proof {
        reveal(eval_arith);
    }
    broadcast use lemma_record_view;

    let op = arith_op(expression);
    let (left, right) = match expression {
        Expression::Add(x, y) => (&**x, &**y),
        Expression::Sub(x, y) => (&**x, &**y),
        Expression::Mul(x, y) => (&**x, &**y),
        Expression::Div(x, y) => (&**x, &**y),
        Expression::Pow(x, y) => (&**x, &**y),
        _ => (expression, expression),
    };
    let a = evaluate_expression(totem, host, types, limits, left, vars, object, depth)?;
    let x = a.num()?;
    let b = evaluate_expression(totem, host, types, limits, right, vars, object, depth)?;
    let y = b.num()?;
    let val = Field::Num(host.arith(op, x, y));
    proof {
        lemma_fields_view_push(Seq::empty(), val);
    }
    Ok(one(val))
}

/// Carries out a built-in of sets on the variable that holds the set.
#[verifier::spinoff_prover]
fn evaluate_set_builtin(
    vars: &mut Data,
    name: &String,
    set: ObjectSet,
    action_name: &String,
    vals: Vec<Field>,
) -> (r: Result<Vec<Field>, Fault>)
    ensures
        ({
            let m = set_builtin(
                data_view(old(vars)@),
                name@,
                set@,
                action_name@,
                fields_view(vals@),
            );
            &&& m.1 == values_view(r)
            &&& r is Ok ==> data_view(final(vars)@) == m.0
        }),
{
    let mut set = set;
    let mut vals = vals;
    proof {
        lemma_data_view(vars@, name@);
        lemma_fields_view_push(Seq::empty(), Field::TRef(0));
    }
    if is_name(action_name, "add") {
        if vals.len() != 1 {
            return Err(Fault::TypeMismatch);
        }
        let ghost all = vals@;
        let key = vals.pop().unwrap();
        assert(fields_view(all)[0] == key@);
        let key = key.unwrap_vref()?;
        set.insert(key);
        let _ = vars.insert(name.clone(), Field::ObjectSet(set));
        Ok(none())
    } else if is_name(action_name, "remove") {
        if vals.len() != 1 {
            return Err(Fault::TypeMismatch);
        }
        let ghost all = vals@;
        let key = vals.pop().unwrap();
        assert(fields_view(all)[0] == key@);
        let key = key.unwrap_vref()?;
        set.remove(key.data);
        let _ = vars.insert(name.clone(), Field::ObjectSet(set));
        Ok(none())
    } else if is_name(action_name, "next") {
        if vals.len() != 0 {
            return Err(Fault::TypeMismatch);
        }
        match crate::data::set_pop(&mut set) {
            None => Err(Fault::KeyError),
            Some(member) => {
                let _ = vars.insert(name.clone(), Field::ObjectSet(set));
                let val = Field::VRef(member);
                proof {
                    lemma_fields_view_push(Seq::empty(), val);
                }
                Ok(one(val))
            },
        }
    } else if is_name(action_name, "not_empty") {
        if vals.len() != 0 {
            return Err(Fault::TypeMismatch);
        }
        let val = Field::from_bool(!set.is_empty());
        proof {
            lemma_fields_view_push(Seq::empty(), val);
        }
        Ok(one(val))
    } else {
        Ok(none())
    }
}

/// Calls a method on `target` from inside an expression: through `table`
/// where one is given, else the algorithm that `action_name` names itself.
#[verifier::spinoff_prover]
pub fn execute_method<H: Flop>(
    totem: &mut Totem,
    host: &mut H,
    types: &Dict<ObjectType>,
    limits: Limits,
    target: Object,
    table: Option<&String>,
    action_name: &String,
    vals: Vec<Field>,
    depth: usize,
) -> (r: Result<Vec<Field>, Fault>)
    requires
        old(totem)@.wf(),
    ensures
        final(totem)@.wf(),
        final(totem)@.objects.len() >= old(totem)@.objects.len(),
        ({
            let c = invoke(
                types_view(types@),
                limits,
                World { totem: old(totem)@, host: *old(host) },
                target,
                match table {
                    Some(t) => Some(t@),
                    None => None,
                },
                action_name@,
                fields_view(vals@),
                depth as nat,
            );
            &&& c.world == World { totem: final(totem)@, host: *final(host) }
            &&& c.result == values_view(r)
        }),
        host_keeps_valid::<H>() && valid_store(old(totem)@) && valid_fields(fields_view(vals@))
            ==> valid_store(final(totem)@) && (r matches Ok(v) ==> valid_fields(
            fields_view(v@),
        )),
    decreases 6 * depth, 0int,
{
    proof {
        if host_keeps_valid::<H>() && valid_store(totem@) && valid_fields(fields_view(vals@)) {
            law_invoke_keeps_valid(
                types_view(types@),
                limits,
                World { totem: totem@, host: *host },
                target,
                match table {
                    Some(t) => Some(t@),
                    None => None,
                },
                action_name@,
                fields_view(vals@),
                depth as nat,
            );
        }
    }
    proof {
        reveal(invoke);
    }
    if !totem.has(target) {
        return Err(Fault::KeyError);
    }
    let object_type = totem.type_of(target).clone();
    let alg_name = match table {
        Some(t) => match get_algorithm_name(types, &object_type, t, action_name) {
            Ok(name) => name.clone(),
            Err(f) => {
                return Err(f);
            },
        },
        None => action_name.clone(),
    };
    let alg = get_algorithm(types, &object_type, &alg_name)?;
    if depth == 0 {
        return Err(Fault::LimitReached);
    }
    let vars = bind_args(&alg.param_list, &vals);
    execute_action(
        totem,
        host,
        types,
        limits,
        target,
        alg_name,
        vars,
        0,
        true,
        limits.steps,
        depth - 1,
    )
}

/// Writes the numbers that the expressions give.
#[verifier::spinoff_prover]
#[verifier::loop_isolation(false)]
fn exec_debug_nums<H: Flop>(
    totem: &mut Totem,
    host: &mut H,
    types: &Dict<ObjectType>,
    limits: Limits,
    object: Object,
    action_name: &String,
    code: &Vec<Statement>,
    pc: usize,
    vars: &mut Data,
    has_state: &mut bool,
    depth: usize,
) -> (r: Result<Flow, Fault>)
    requires
        old(totem)@.wf(),
        old(totem)@.has(object),
        pc < code.len(),
        code@[pc as int] is DebugNums,
    ensures
        final(totem)@.wf(),
        final(totem)@.objects.len() >= old(totem)@.objects.len(),
        stepped(
            step_debug_nums(
                types_view(types@),
                limits,
                World { totem: old(totem)@, host: *old(host) },
                Frame {
                    object,
                    action_name: action_name@,
                    code: code_view(code@),
                    pc,
                    vars: data_view(old(vars)@),
                    has_state: *old(has_state),
                },
                code_view(code@)[pc as int],
                depth as nat,
            ),
            final(totem)@,
            *final(host),
            data_view(final(vars)@),
            *final(has_state),
            r,
        ),
    decreases 6 * depth + 3, 0int,
{
    proof {
        reveal(step_debug_nums);
    }
    broadcast use lemma_record_view;

    match &code[pc] {
        Statement::DebugNums(exprs) => {
            let vals = evaluate_expressions(totem, host, types, limits, exprs, vars, object, depth)?;
            match to_nums(&vals) {
                None => Err(Fault::TypeMismatch),
                Some(nums) => {
                    totem.emit(Output::Nums(nums));
                    Ok(Flow::Next(pc + 1))
                },
            }
        },
        _ => Err(Fault::TypeMismatch),
    }
}

/// Evaluates the expressions and binds their values to the names.
#[verifier::spinoff_prover]
#[verifier::loop_isolation(false)]
fn exec_evaluate<H: Flop>(
    totem: &mut Totem,
    host: &mut H,
    types: &Dict<ObjectType>,
    limits: Limits,
    object: Object,
    action_name: &String,
    code: &Vec<Statement>,
    pc: usize,
    vars: &mut Data,
    has_state: &mut bool,
    depth: usize,
) -> (r: Result<Flow, Fault>)
    requires
        old(totem)@.wf(),
        old(totem)@.has(object),
        pc < code.len(),
        code@[pc as int] is Evaluate,
    ensures
        final(totem)@.wf(),
        final(totem)@.objects.len() >= old(totem)@.objects.len(),
        stepped(
            step_evaluate(
                types_view(types@),
                limits,
                World { totem: old(totem)@, host: *old(host) },
                Frame {
                    object,
                    action_name: action_name@,
                    code: code_view(code@),
                    pc,
                    vars: data_view(old(vars)@),
                    has_state: *old(has_state),
                },
                code_view(code@)[pc as int],
                depth as nat,
            ),
            final(totem)@,
            *final(host),
            data_view(final(vars)@),
            *final(has_state),
            r,
        ),
    decreases 6 * depth + 3, 0int,
{
    proof {
        reveal(step_evaluate);
    }
    broadcast use lemma_record_view;

    match &code[pc] {
        Statement::Evaluate { expressions, results } => {
            let vals = evaluate_expressions(
                totem,
                host,
                types,
                limits,
                expressions,
                vars,
                object,
                depth,
            )?;
            let ghost goal = assign(names_view(results@), fields_view(vals@), 0, data_view(vars@));
            let n = if results.len() <= vals.len() {
                results.len()
            } else {
                vals.len()
            };
            let mut i: usize = 0;
            while i < n
                invariant
                    i <= n,
                    n <= results@.len(),
                    n <= vals@.len(),
                    n == results@.len() || n == vals@.len(),
                    goal == assign(
                        names_view(results@),
                        fields_view(vals@),
                        i as int,
                        data_view(vars@),
                    ),
                decreases n - i,
            {
                proof {
                    lemma_data_view(vars@, results@[i as int]@);
                }
                let _ = vars.insert(results[i].clone(), vals[i].clone());
                i += 1;
            }
            Ok(Flow::Next(pc + 1))
        },
        _ => Err(Fault::TypeMismatch),
    }
}

/// Sets the resting state of the object.
#[verifier::spinoff_prover]
#[verifier::loop_isolation(false)]
fn exec_state<H: Flop>(
    totem: &mut Totem,
    host: &mut H,
    types: &Dict<ObjectType>,
    limits: Limits,
    object: Object,
    action_name: &String,
    code: &Vec<Statement>,
    pc: usize,
    vars: &mut Data,
    has_state: &mut bool,
    depth: usize,
) -> (r: Result<Flow, Fault>)
    requires
        old(totem)@.wf(),
        old(totem)@.has(object),
        pc < code.len(),
        code@[pc as int] is State,
    ensures
        final(totem)@.wf(),
        final(totem)@.objects.len() >= old(totem)@.objects.len(),
        stepped(
            step_state(
                types_view(types@),
                limits,
                World { totem: old(totem)@, host: *old(host) },
                Frame {
                    object,
                    action_name: action_name@,
                    code: code_view(code@),
                    pc,
                    vars: data_view(old(vars)@),
                    has_state: *old(has_state),
                },
                code_view(code@)[pc as int],
                depth as nat,
            ),
            final(totem)@,
            *final(host),
            data_view(final(vars)@),
            *final(has_state),
            r,
        ),
    decreases 6 * depth + 3, 0int,
{
    proof {
        reveal(step_state);
    }
    broadcast use lemma_record_view;

    match &code[pc] {
        Statement::State(e) => {
            if *has_state {
                return Err(Fault::ProtocolViolation);
            }
            let v = evaluate_expression(totem, host, types, limits, e, vars, object, depth)?;
            let (name, data) = v.unwrap_data()?;
            totem.set_state(object, name, data);
            *has_state = true;
            Ok(Flow::Next(pc + 1))
        },
        _ => Err(Fault::TypeMismatch),
    }
}

/// Begins a wait and ends the activation.
#[verifier::spinoff_prover]
#[verifier::loop_isolation(false)]
fn exec_wait<H: Flop>(
    totem: &mut Totem,
    host: &mut H,
    types: &Dict<ObjectType>,
    limits: Limits,
    object: Object,
    action_name: &String,
    code: &Vec<Statement>,
    pc: usize,
    vars: &mut Data,
    has_state: &mut bool,
    depth: usize,
) -> (r: Result<Flow, Fault>)
    requires
        old(totem)@.wf(),
        old(totem)@.has(object),
        pc < code.len(),
        code@[pc as int] is Wait,
    ensures
        final(totem)@.wf(),
        final(totem)@.objects.len() >= old(totem)@.objects.len(),
        stepped(
            step_wait(
                types_view(types@),
                limits,
                World { totem: old(totem)@, host: *old(host) },
                Frame {
                    object,
                    action_name: action_name@,
                    code: code_view(code@),
                    pc,
                    vars: data_view(old(vars)@),
                    has_state: *old(has_state),
                },
                code_view(code@)[pc as int],
                depth as nat,
            ),
            final(totem)@,
            *final(host),
            data_view(final(vars)@),
            *final(has_state),
            r,
        ),
    decreases 6 * depth + 3, 0int,
{
    proof {
        reveal(step_wait);
    }
    broadcast use lemma_record_view;

    match &code[pc] {
        Statement::Wait(e) => {
            let v = evaluate_expression(totem, host, types, limits, e, vars, object, depth)?;
            wait(totem, host, object, action_name.clone(), pc, &v)?;
            Ok(Flow::Exit(AlgorithmResult::ReturnVals(none())))
        },
        _ => Err(Fault::TypeMismatch),
    }
}

/// Ends the activation with the values that the expressions give, and
/// begins the wait that stands directly behind the return, if one does.
#[verifier::spinoff_prover]
#[verifier::loop_isolation(false)]
fn exec_return<H: Flop>(
    totem: &mut Totem,
    host: &mut H,
    types: &Dict<ObjectType>,
    limits: Limits,
    object: Object,
    action_name: &String,
    code: &Vec<Statement>,
    pc: usize,
    vars: &mut Data,
    has_state: &mut bool,
    depth: usize,
) -> (r: Result<Flow, Fault>)
    requires
        old(totem)@.wf(),
        old(totem)@.has(object),
        pc < code.len(),
        code@[pc as int] is Return,
    ensures
        final(totem)@.wf(),
        final(totem)@.objects.len() >= old(totem)@.objects.len(),
        stepped(
            step_return(
                types_view(types@),
                limits,
                World { totem: old(totem)@, host: *old(host) },
                Frame {
                    object,
                    action_name: action_name@,
                    code: code_view(code@),
                    pc,
                    vars: data_view(old(vars)@),
                    has_state: *old(has_state),
                },
                code_view(code@)[pc as int],
                depth as nat,
            ),
            final(totem)@,
            *final(host),
            data_view(final(vars)@),
            *final(has_state),
            r,
        ),
    decreases 6 * depth + 3, 0int,
{
    proof {
        reveal(step_return);
    }
    broadcast use lemma_record_view;

    match &code[pc] {
        Statement::Return(exprs) => {
            let vals = evaluate_expressions(totem, host, types, limits, exprs, vars, object, depth)?;
            let next = pc + 1;
            if next < code.len() {
                match &code[next] {
                    Statement::Wait(e) => {
                        let v = evaluate_expression(
                            totem,
                            host,
                            types,
                            limits,
                            e,
                            vars,
                            object,
                            depth,
                        )?;
                        wait(totem, host, object, action_name.clone(), next, &v)?;
                    },
                    _ => {},
                }
            }
            Ok(Flow::Exit(AlgorithmResult::ReturnVals(vals)))
        },
        _ => Err(Fault::TypeMismatch),
    }
}

/// Goes on where the condition holds, and skips ahead where it does not.
#[verifier::spinoff_prover]
#[verifier::loop_isolation(false)]
fn exec_branch<H: Flop>(
    totem: &mut Totem,
    host: &mut H,
    types: &Dict<ObjectType>,
    limits: Limits,
    object: Object,
    action_name: &String,
    code: &Vec<Statement>,
    pc: usize,
    vars: &mut Data,
    has_state: &mut bool,
    depth: usize,
) -> (r: Result<Flow, Fault>)
    requires
        old(totem)@.wf(),
        old(totem)@.has(object),
        pc < code.len(),
        code@[pc as int] is Branch,
    ensures
        final(totem)@.wf(),
        final(totem)@.objects.len() >= old(totem)@.objects.len(),
        stepped(
            step_branch(
                types_view(types@),
                limits,
                World { totem: old(totem)@, host: *old(host) },
                Frame {
                    object,
                    action_name: action_name@,
                    code: code_view(code@),
                    pc,
                    vars: data_view(old(vars)@),
                    has_state: *old(has_state),
                },
                code_view(code@)[pc as int],
                depth as nat,
            ),
            final(totem)@,
            *final(host),
            data_view(final(vars)@),
            *final(has_state),
            r,
        ),
    decreases 6 * depth + 3, 0int,
{
    proof {
        reveal(step_branch);
    }
    broadcast use lemma_record_view;

    match &code[pc] {
        Statement::Branch { condition, break_offset } => {
            let v = evaluate_expression(totem, host, types, limits, condition, vars, object, depth)?;
            if v.bool()? {
                Ok(Flow::Next(pc + 1))
            } else {
                jump_ahead(code.len(), pc, *break_offset, 0)
            }
        },
        _ => Err(Fault::TypeMismatch),
    }
}

/// Goes to the arm whose tag the record has, binding its fields, or to the
/// default.
#[verifier::spinoff_prover]
#[verifier::loop_isolation(false)]
fn exec_pattern<H: Flop>(
    totem: &mut Totem,
    host: &mut H,
    types: &Dict<ObjectType>,
    limits: Limits,
    object: Object,
    action_name: &String,
    code: &Vec<Statement>,
    pc: usize,
    vars: &mut Data,
    has_state: &mut bool,
    depth: usize,
) -> (r: Result<Flow, Fault>)
    requires
        old(totem)@.wf(),
        old(totem)@.has(object),
        pc < code.len(),
        code@[pc as int] is PatternBranch,
    ensures
        final(totem)@.wf(),
        final(totem)@.objects.len() >= old(totem)@.objects.len(),
        stepped(
            step_pattern(
                types_view(types@),
                limits,
                World { totem: old(totem)@, host: *old(host) },
                Frame {
                    object,
                    action_name: action_name@,
                    code: code_view(code@),
                    pc,
                    vars: data_view(old(vars)@),
                    has_state: *old(has_state),
                },
                code_view(code@)[pc as int],
                depth as nat,
            ),
            final(totem)@,
            *final(host),
            data_view(final(vars)@),
            *final(has_state),
            r,
        ),
    decreases 6 * depth + 3, 0int,
{
    proof {
        reveal(step_pattern);
    }
    broadcast use lemma_record_view;

    match &code[pc] {
        Statement::PatternBranch { data, arms, default_offset } => {
            let v = evaluate_expression(totem, host, types, limits, data, vars, object, depth)?;
            let (tag, mut record) = v.unwrap_data()?;
            proof {
                crate::ast::lemma_find_arms(arms@, tag@);
            }
            proof {
                crate::prelude::lemma_dict_find(arms@, tag@);
            }
            match arms.get(&tag) {
                None => jump_ahead(code.len(), pc, *default_offset, 0),
                Some(arm) => {
                    let fields = &arm.0;
                    assert(dict_get(crate::runtime::arms_view(arms@), tag@) == Some(
                        crate::runtime::ArmView { fields: names_view(fields@), offset: arm.1 },
                    ));
                    let ghost goal = destructure(
                        names_view(fields@),
                        0,
                        data_view(record@),
                        data_view(vars@),
                    );
                    let n = fields.len();
                    let mut i: usize = 0;
                    while i < n
                        invariant
                            i <= n,
                            n == fields@.len(),
                            goal == destructure(
                                names_view(fields@),
                                i as int,
                                data_view(record@),
                                data_view(vars@),
                            ),
                        decreases n - i,
                    {
                        proof {
                            lemma_data_view(record@, fields@[i as int]@);
                            lemma_data_view(vars@, fields@[i as int]@);
                            assert(names_view(fields@)[i as int] == fields@[i as int]@);
                        }
                        match record.remove(&fields[i]) {
                            None => {
                                return Err(Fault::KeyError);
                            },
                            Some(val) => {
                                let _ = vars.insert(fields[i].clone(), val);
                            },
                        }
                        i += 1;
                    }
                    jump_ahead(code.len(), pc, arm.1, 0)
                },
            }
        },
        _ => Err(Fault::TypeMismatch),
    }
}

/// Adds a member to the set that a variable holds.
#[verifier::spinoff_prover]
#[verifier::loop_isolation(false)]
fn exec_set_add<H: Flop>(
    totem: &mut Totem,
    host: &mut H,
    types: &Dict<ObjectType>,
    limits: Limits,
    object: Object,
    action_name: &String,
    code: &Vec<Statement>,
    pc: usize,
    vars: &mut Data,
    has_state: &mut bool,
    depth: usize,
) -> (r: Result<Flow, Fault>)
    requires
        old(totem)@.wf(),
        old(totem)@.has(object),
        pc < code.len(),
        code@[pc as int] is SetAdd,
    ensures
        final(totem)@.wf(),
        final(totem)@.objects.len() >= old(totem)@.objects.len(),
        stepped(
            step_set_add(
                types_view(types@),
                limits,
                World { totem: old(totem)@, host: *old(host) },
                Frame {
                    object,
                    action_name: action_name@,
                    code: code_view(code@),
                    pc,
                    vars: data_view(old(vars)@),
                    has_state: *old(has_state),
                },
                code_view(code@)[pc as int],
                depth as nat,
            ),
            final(totem)@,
            *final(host),
            data_view(final(vars)@),
            *final(has_state),
            r,
        ),
    decreases 6 * depth + 3, 0int,
{
    proof {
        reveal(step_set_add);
    }
    broadcast use lemma_record_view;

    match &code[pc] {
        Statement::SetAdd { set_name, to_add } => {
            let v = evaluate_expression(totem, host, types, limits, to_add, vars, object, depth)?;
            proof {
                lemma_data_view(vars@, set_name@);
            }
            let found = match vars.get(set_name) {
                None => {
                    return Err(Fault::KeyError);
                },
                Some(f) => f.clone(),
            };
            match (v, found) {
                (Field::VRef(x), Field::ObjectSet(s)) => {
                    let mut s = s;
                    s.insert(x);
                    let _ = vars.insert(set_name.clone(), Field::ObjectSet(s));
                    Ok(Flow::Next(pc + 1))
                },
                _ => Err(Fault::TypeMismatch),
            }
        },
        _ => Err(Fault::TypeMismatch),
    }
}

/// Removes a member from the set that a variable holds.
#[verifier::spinoff_prover]
#[verifier::loop_isolation(false)]
fn exec_set_remove<H: Flop>(
    totem: &mut Totem,
    host: &mut H,
    types: &Dict<ObjectType>,
    limits: Limits,
    object: Object,
    action_name: &String,
    code: &Vec<Statement>,
    pc: usize,
    vars: &mut Data,
    has_state: &mut bool,
    depth: usize,
) -> (r: Result<Flow, Fault>)
    requires
        old(totem)@.wf(),
        old(totem)@.has(object),
        pc < code.len(),
        code@[pc as int] is SetRemove,
    ensures
        final(totem)@.wf(),
        final(totem)@.objects.len() >= old(totem)@.objects.len(),
        stepped(
            step_set_remove(
                types_view(types@),
                limits,
                World { totem: old(totem)@, host: *old(host) },
                Frame {
                    object,
                    action_name: action_name@,
                    code: code_view(code@),
                    pc,
                    vars: data_view(old(vars)@),
                    has_state: *old(has_state),
                },
                code_view(code@)[pc as int],
                depth as nat,
            ),
            final(totem)@,
            *final(host),
            data_view(final(vars)@),
            *final(has_state),
            r,
        ),
    decreases 6 * depth + 3, 0int,
{
    proof {
        reveal(step_set_remove);
    }
    broadcast use lemma_record_view;

    match &code[pc] {
        Statement::SetRemove { set_name, to_remove } => {
            let v = evaluate_expression(totem, host, types, limits, to_remove, vars, object, depth)?;
            proof {
                lemma_data_view(vars@, set_name@);
            }
            let found = match vars.get(set_name) {
                None => {
                    return Err(Fault::KeyError);
                },
                Some(f) => f.clone(),
            };
            match (v, found) {
                (Field::VRef(x), Field::ObjectSet(s)) => {
                    let mut s = s;
                    s.remove(x.data);
                    let _ = vars.insert(set_name.clone(), Field::ObjectSet(s));
                    Ok(Flow::Next(pc + 1))
                },
                _ => Err(Fault::TypeMismatch),
            }
        },
        _ => Err(Fault::TypeMismatch),
    }
}

/// Runs the loop body once for each member of a set.
#[verifier::spinoff_prover]
#[verifier::loop_isolation(false)]
fn exec_iterate<H: Flop>(
    totem: &mut Totem,
    host: &mut H,
    types: &Dict<ObjectType>,
    limits: Limits,
    object: Object,
    action_name: &String,
    code: &Vec<Statement>,
    pc: usize,
    vars: &mut Data,
    has_state: &mut bool,
    depth: usize,
) -> (r: Result<Flow, Fault>)
    requires
        old(totem)@.wf(),
        old(totem)@.has(object),
        pc < code.len(),
        code@[pc as int] is SetIterate,
    ensures
        final(totem)@.wf(),
        final(totem)@.objects.len() >= old(totem)@.objects.len(),
        stepped(
            step_iterate(
                types_view(types@),
                limits,
                World { totem: old(totem)@, host: *old(host) },
                Frame {
                    object,
                    action_name: action_name@,
                    code: code_view(code@),
                    pc,
                    vars: data_view(old(vars)@),
                    has_state: *old(has_state),
                },
                code_view(code@)[pc as int],
                depth as nat,
            ),
            final(totem)@,
            *final(host),
            data_view(final(vars)@),
            *final(has_state),
            r,
        ),
    decreases 6 * depth + 3, 0int,
{
    proof {
        reveal(step_iterate);
        reveal(iterate);
    }
    broadcast use lemma_record_view;

    match &code[pc] {
        Statement::SetIterate { var_name, set_name, break_offset } => {
            proof {
                lemma_data_view(vars@, set_name@);
            }
            let set = match vars.get(set_name) {
                None => {
                    return Err(Fault::KeyError);
                },
                Some(Field::ObjectSet(s)) => s.clone(),
                Some(_) => {
                    return Err(Fault::TypeMismatch);
                },
            };
            let _ = vars.remove(set_name);
            let ghost frame = Frame {
                object,
                action_name: action_name@,
                code: code_view(code@),
                pc,
                vars: data_view(old(vars)@),
                has_state: *old(has_state),
            };
            let ghost goal = iterate(
                types_view(types@),
                limits,
                World { totem: totem@, host: *host },
                frame,
                var_name@,
                set@,
                0,
                data_view(vars@),
                depth as nat,
            );
            let n = set.len();
            let mut k: usize = 0;
            while k < n
                invariant
                    k <= n,
                    n == set@.len(),
                    totem@.wf(),
                    totem@.has(object),
                    totem@.objects.len() >= old(totem)@.objects.len(),
                    *has_state == *old(has_state),
                    goal == iterate(
                        types_view(types@),
                        limits,
                        World { totem: totem@, host: *host },
                        frame,
                        var_name@,
                        set@,
                        k as int,
                        data_view(vars@),
                        depth as nat,
                    ),
                decreases n - k,
            {
                if depth == 0 {
                    return Err(Fault::LimitReached);
                }
                proof {
                    lemma_data_view(vars@, var_name@);
                }
                let _ = vars.insert(var_name.clone(), Field::VRef(set.member(k).clone()));
                let mut body_vars: Data = Dict::new();
                std::mem::swap(vars, &mut body_vars);
                match execute_algorithm(
                    totem,
                    host,
                    types,
                    limits,
                    object,
                    action_name,
                    code,
                    body_vars,
                    pc + 1,
                    *has_state,
                    limits.steps,
                    depth - 1,
                )? {
                    AlgorithmResult::ContinueLoop { vars: after } => {
                        *vars = after;
                    },
                    _ => {
                        return Err(Fault::ProtocolViolation);
                    },
                }
                k += 1;
            }
            proof {
                lemma_data_view(vars@, set_name@);
            }
            let _ = vars.insert(set_name.clone(), Field::ObjectSet(set));
            jump_ahead(code.len(), pc, *break_offset, 1)
        },
        _ => Err(Fault::TypeMismatch),
    }
}

/// Hands the activation over to another object.
#[verifier::spinoff_prover]
#[verifier::loop_isolation(false)]
fn exec_goto<H: Flop>(
    totem: &mut Totem,
    host: &mut H,
    types: &Dict<ObjectType>,
    limits: Limits,
    object: Object,
    action_name: &String,
    code: &Vec<Statement>,
    pc: usize,
    vars: &mut Data,
    has_state: &mut bool,
    depth: usize,
) -> (r: Result<Flow, Fault>)
    requires
        old(totem)@.wf(),
        old(totem)@.has(object),
        pc < code.len(),
        code@[pc as int] is GotoAlg,
    ensures
        final(totem)@.wf(),
        final(totem)@.objects.len() >= old(totem)@.objects.len(),
        stepped(
            step(
                types_view(types@),
                limits,
                World { totem: old(totem)@, host: *old(host) },
                Frame {
                    object,
                    action_name: action_name@,
                    code: code_view(code@),
                    pc,
                    vars: data_view(old(vars)@),
                    has_state: *old(has_state),
                },
                depth as nat,
            ),
            final(totem)@,
            *final(host),
            data_view(final(vars)@),
            *final(has_state),
            r,
        ),
    decreases 6 * depth + 3, 0int,
{
    proof {
        reveal(perform);
        reveal(goto);
    }
    broadcast use lemma_record_view;

    match &code[pc] {
        Statement::GotoAlg { table, alg_name, args } => {
            let next = pc + 1;
            if next < code.len() {
                match &code[next] {
                    Statement::Wait(e) => {
                        let v = evaluate_expression(
                            totem,
                            host,
                            types,
                            limits,
                            e,
                            vars,
                            object,
                            depth,
                        )?;
                        wait(totem, host, object, action_name.clone(), next, &v)?;
                    },
                    _ => {
                        totem.emit(
                            Output::Text(
                                String::from_str(
                                    "Warning: code after a tail dispatch is not executed",
                                ),
                            ),
                        );
                    },
                }
            }
            let (target, table_name, new_has_state) = match table {
                TablePath::Virtual(name) => {
                    proof {
                        lemma_data_view(vars@, name@);
                    }
                    match vars.get(name) {
                        None => {
                            return Err(Fault::KeyError);
                        },
                        Some(Field::VRef(r)) => (r.data, r.table.clone(), true),
                        Some(_) => {
                            return Err(Fault::TypeMismatch);
                        },
                    }
                },
                TablePath::Static(object_type, table_name) => {
                    let new = strong(totem, ObjectData::new(object_type.clone()));
                    (new, table_name.clone(), false)
                },
            };
            let vals = evaluate_expressions(totem, host, types, limits, args, vars, object, depth)?;
            if !totem.has(target) {
                return Err(Fault::KeyError);
            }
            let object_type = totem.type_of(target).clone();
            let name = match get_algorithm_name(types, &object_type, &table_name, alg_name) {
                Ok(name) => name.clone(),
                Err(f) => {
                    return Err(f);
                },
            };
            let alg = get_algorithm(types, &object_type, &name)?;
            let new_vars = bind_args(&alg.param_list, &vals);
            Ok(
                Flow::Exit(
                    AlgorithmResult::ExternContinuation {
                        object: target,
                        action_name: name,
                        vars: new_vars,
                        has_state: new_has_state,
                    },
                ),
            )
        },
        _ => Err(Fault::TypeMismatch),
    }
}

/// Carries out the instruction at `pc`.
#[verifier::spinoff_prover]
#[verifier::loop_isolation(false)]
pub fn execute_step<H: Flop>(
    totem: &mut Totem,
    host: &mut H,
    types: &Dict<ObjectType>,
    limits: Limits,
    object: Object,
    action_name: &String,
    code: &Vec<Statement>,
    pc: usize,
    vars: &mut Data,
    has_state: &mut bool,
    depth: usize,
) -> (r: Result<Flow, Fault>)
    requires
        old(totem)@.wf(),
        old(totem)@.has(object),
        pc < code.len(),
    ensures
        final(totem)@.wf(),
        final(totem)@.objects.len() >= old(totem)@.objects.len(),
        stepped(
            step(
                types_view(types@),
                limits,
                World { totem: old(totem)@, host: *old(host) },
                Frame {
                    object,
                    action_name: action_name@,
                    code: code_view(code@),
                    pc,
                    vars: data_view(old(vars)@),
                    has_state: *old(has_state),
                },
                depth as nat,
            ),
            final(totem)@,
            *final(host),
            data_view(final(vars)@),
            *final(has_state),
            r,
        ),
    decreases 6 * depth + 3, 1int,
{
    proof {
        reveal(perform);
    }
    broadcast use lemma_record_view;

    match &code[pc] {
        Statement::Debug(text) => {
            totem.emit(Output::Text(text.clone()));
            Ok(Flow::Next(pc + 1))
        },
        Statement::CancelWait => {
            totem.clear_state(object);
            *has_state = false;
            Ok(Flow::Next(pc + 1))
        },
        Statement::Continue(back) => {
            if *back > pc {
                Err(Fault::KeyError)
            } else {
                Ok(Flow::Next(pc - *back))
            }
        },
        Statement::Jump(skip) => {
            let target: i128 = pc as i128 + *skip as i128;
            if target < 0 || target > code.len() as i128 {
                Err(Fault::KeyError)
            } else {
                Ok(Flow::Next(target as usize))
            }
        },
        Statement::ContinueLoop => {
            let mut taken: Data = Dict::new();
            std::mem::swap(vars, &mut taken);
            Ok(Flow::Exit(AlgorithmResult::ContinueLoop { vars: taken }))
        },
        Statement::GotoAlg { .. } => exec_goto(
            totem,
            host,
            types,
            limits,
            object,
            action_name,
            code,
            pc,
            vars,
            has_state,
            depth,
        ),
        Statement::DebugNums(_) => exec_debug_nums(
            totem,
            host,
            types,
            limits,
            object,
            action_name,
            code,
            pc,
            vars,
            has_state,
            depth,
        ),
        Statement::Evaluate { .. } => exec_evaluate(
            totem,
            host,
            types,
            limits,
            object,
            action_name,
            code,
            pc,
            vars,
            has_state,
            depth,
        ),
        Statement::State(_) => exec_state(
            totem,
            host,
            types,
            limits,
            object,
            action_name,
            code,
            pc,
            vars,
            has_state,
            depth,
        ),
        Statement::Wait(_) => exec_wait(
            totem,
            host,
            types,
            limits,
            object,
            action_name,
            code,
            pc,
            vars,
            has_state,
            depth,
        ),
        Statement::Return(_) => exec_return(
            totem,
            host,
            types,
            limits,
            object,
            action_name,
            code,
            pc,
            vars,
            has_state,
            depth,
        ),
        Statement::Branch { .. } => exec_branch(
            totem,
            host,
            types,
            limits,
            object,
            action_name,
            code,
            pc,
            vars,
            has_state,
            depth,
        ),
        Statement::PatternBranch { .. } => exec_pattern(
            totem,
            host,
            types,
            limits,
            object,
            action_name,
            code,
            pc,
            vars,
            has_state,
            depth,
        ),
        Statement::SetAdd { .. } => exec_set_add(
            totem,
            host,
            types,
            limits,
            object,
            action_name,
            code,
            pc,
            vars,
            has_state,
            depth,
        ),
        Statement::SetRemove { .. } => exec_set_remove(
            totem,
            host,
            types,
            limits,
            object,
            action_name,
            code,
            pc,
            vars,
            has_state,
            depth,
        ),
        Statement::SetIterate { .. } => exec_iterate(
            totem,
            host,
            types,
            limits,
            object,
            action_name,
            code,
            pc,
            vars,
            has_state,
            depth,
        ),
    }
}

/// Where an activation goes after an instruction: on at a program counter,
/// or out with a result.
#[derive(Debug)]
pub enum Flow {
    Next(usize),
    Exit(AlgorithmResult),
}

/// Whether an instruction came out as the model `m` says: in that world,
/// and on with those variables and that flag, out with that result, or with
/// that fault.
pub open spec fn stepped<H>(
    m: Stepped<H>,
    totem: TotemView,
    host: H,
    vars: DataView,
    has_state: bool,
    r: Result<Flow, Fault>,
) -> bool {
    match m {
        Stepped::Next(world, pc, v, flag) => {
            &&& world == World { totem, host }
            &&& r matches Ok(Flow::Next(p))
            &&& p == pc
            &&& v == vars
            &&& flag == has_state
        },
        Stepped::Exit(world, flag, result) => {
            &&& world == World { totem, host }
            &&& r matches Ok(Flow::Exit(x))
            &&& x@ == result
            &&& flag == has_state
        },
        Stepped::Fault(world, fault) => {
            &&& world == World { totem, host }
            &&& r matches Err(f)
            &&& f == fault
        },
    }
}

/// Whether an activation ended as the model says.
pub open spec fn ran_as(
    m: Result<AlgorithmResultView, Fault>,
    r: Result<AlgorithmResult, Fault>,
) -> bool {
    match r {
        Ok(x) => m == Ok::<AlgorithmResultView, Fault>(x@),
        Err(f) => m == Err::<AlgorithmResultView, Fault>(f),
    }
}

/// The numbers of a list of values, if all of them are numbers.
#[verifier::spinoff_prover]
fn to_nums(vals: &Vec<Field>) -> (r: Option<Vec<Num>>)
    ensures
        match r {
            Some(nums) => nums_of(fields_view(vals@)) == Some(nums@),
            None => nums_of(fields_view(vals@)) is None,
        },
{
    let mut nums: Vec<Num> = Vec::new();
    let n = vals.len();
    let mut i: usize = 0;
    while i < n
        invariant
            n == vals@.len(),
            i <= n,
            nums@.len() == i,
            forall|j: int|
                0 <= j < i ==> (#[trigger] fields_view(vals@)[j]) is Num && fields_view(
                    vals@,
                )[j]->Num_0 == nums@[j],
        decreases n - i,
    {
        match &vals[i] {
            Field::Num(x) => {
                assert(fields_view(vals@)[i as int] == FieldView::Num(*x));
                nums.push(*x);
            },
            _ => {
                assert(!(fields_view(vals@)[i as int] is Num));
                return None;
            },
        }
        i += 1;
    }
    assert(nums@ =~= Seq::new(fields_view(vals@).len(), |i: int| fields_view(vals@)[i]->Num_0));
    Some(nums)
}

/// The program counter `offset + extra` instructions ahead of `pc`, where it
/// lies within the code or just behind it.
#[verifier::spinoff_prover]
fn jump_ahead(len: usize, pc: usize, offset: usize, extra: usize) -> (r: Result<Flow, Fault>)
    requires
        extra <= 1,
    ensures
        match r {
            Ok(Flow::Next(target)) => target == pc + offset + extra && target <= len,
            Ok(_) => false,
            Err(f) => f == Fault::KeyError && pc + offset + extra > len,
        },
{
    if pc > len || offset > len - pc || extra > len - pc - offset {
        Err(Fault::KeyError)
    } else {
        Ok(Flow::Next(pc + offset + extra))
    }
}

/// Begins the wait of `object` at the instruction at `pc`: asks the host for
/// the time that lies the given duration after now, and puts the wake-up in
/// for it, to go on with the instruction behind `pc`.
#[verifier::spinoff_prover]
pub fn wait<H: Flop>(
    totem: &mut Totem,
    host: &H,
    object: Object,
    action_name: String,
    pc: usize,
    duration: &Field,
) -> (r: Result<(), Fault>)
    requires
        old(totem)@.wf(),
        old(totem)@.has(object),
        pc < usize::MAX,
    ensures
        final(totem)@.wf(),
        final(totem)@.objects.len() == old(totem)@.objects.len(),
        match begin_wait(
            World { totem: old(totem)@, host: *host },
            object,
            action_name@,
            duration@,
            (pc + 1) as usize,
        ) {
            Ok(world) => r is Ok && world == World { totem: final(totem)@, host: *host },
            Err(e) => r == Err::<(), Fault>(e.1) && e.0 == World {
                totem: final(totem)@,
                host: *host,
            },
        },
{
    let by = duration.num()?;
    let now = totem.event_queue.now();
    match host.advance(now, by) {
        None => Err(Fault::TypeMismatch),
        Some(time) => totem.schedule(object, action_name, pc + 1, time),
    }
}

/// Runs one activation from `pc` to where it ends: at a wait, a return, a
/// hand-over, a loop marker or the end of its code. An object that does not
/// rest when its activation ends is a `ProtocolViolation`.
#[verifier::spinoff_prover]
#[verifier::loop_isolation(false)]
pub fn execute_algorithm<H: Flop>(
    totem: &mut Totem,
    host: &mut H,
    types: &Dict<ObjectType>,
    limits: Limits,
    object: Object,
    action_name: &String,
    code: &Vec<Statement>,
    vars: Data,
    pc: usize,
    has_state: bool,
    steps: usize,
    depth: usize,
) -> (r: Result<AlgorithmResult, Fault>)
    requires
        old(totem)@.wf(),
        old(totem)@.has(object),
    ensures
        final(totem)@.wf(),
        final(totem)@.objects.len() >= old(totem)@.objects.len(),
        ({
            let m = run(
                types_view(types@),
                limits,
                World { totem: old(totem)@, host: *old(host) },
                Frame {
                    object,
                    action_name: action_name@,
                    code: code_view(code@),
                    pc,
                    vars: data_view(vars@),
                    has_state,
                },
                steps as nat,
                depth as nat,
            );
            &&& m.world == World { totem: final(totem)@, host: *final(host) }
            &&& ran_as(m.result, r)
        }),
        host_keeps_valid::<H>() && valid_store(old(totem)@) && valid_data(data_view(vars@))
            ==> valid_store(final(totem)@) && (r matches Ok(x) ==> crate::validity::valid_result(
            x@,
        )),
    decreases 6 * depth + 4, steps,
{
    proof {
        if host_keeps_valid::<H>() && valid_store(totem@) && valid_data(data_view(vars@)) {
            crate::validity::lemma_run(
                types_view(types@),
                limits,
                World { totem: totem@, host: *host },
                Frame {
                    object,
                    action_name: action_name@,
                    code: code_view(code@),
                    pc,
                    vars: data_view(vars@),
                    has_state,
                },
                steps as nat,
                depth as nat,
            );
        }
    }
    proof {
        reveal(run);
    }
    let ghost goal = run(
        types_view(types@),
        limits,
        World { totem: totem@, host: *host },
        Frame {
            object,
            action_name: action_name@,
            code: code_view(code@),
            pc,
            vars: data_view(vars@),
            has_state,
        },
        steps as nat,
        depth as nat,
    );
    let mut vars = vars;
    let mut pc = pc;
    let mut has_state = has_state;
    let mut steps = steps;
    while pc < code.len()
        invariant
            totem@.wf(),
            totem@.has(object),
            totem@.objects.len() >= old(totem)@.objects.len(),
            goal == run(
                types_view(types@),
                limits,
                World { totem: totem@, host: *host },
                Frame {
                    object,
                    action_name: action_name@,
                    code: code_view(code@),
                    pc,
                    vars: data_view(vars@),
                    has_state,
                },
                steps as nat,
                depth as nat,
            ),
        decreases steps,
    {
        if steps == 0 {
            return Err(Fault::LimitReached);
        }
        match execute_step(
            totem,
            host,
            types,
            limits,
            object,
            action_name,
            code,
            pc,
            &mut vars,
            &mut has_state,
            depth,
        )? {
            Flow::Next(target) => {
                pc = target;
            },
            Flow::Exit(result) => {
                if has_state {
                    return Ok(result);
                } else {
                    return Err(Fault::ProtocolViolation);
                }
            },
        }
        steps -= 1;
    }
    if has_state {
        Ok(AlgorithmResult::ReturnVals(none()))
    } else {
        Err(Fault::ProtocolViolation)
    }
}

/// Runs a call: the activation that starts at `pc`, and after it every
/// activation that the one before handed over to, one in the place of the
/// other, until one returns, waits or runs off its end.
#[verifier::spinoff_prover]
#[verifier::loop_isolation(false)]
pub fn execute_action<H: Flop>(
    totem: &mut Totem,
    host: &mut H,
    types: &Dict<ObjectType>,
    limits: Limits,
    object: Object,
    action_name: String,
    vars: Data,
    pc: usize,
    has_state: bool,
    hops: usize,
    depth: usize,
) -> (r: Result<Vec<Field>, Fault>)
    requires
        old(totem)@.wf(),
    ensures
        final(totem)@.wf(),
        final(totem)@.objects.len() >= old(totem)@.objects.len(),
        ({
            let c = call(
                types_view(types@),
                limits,
                World { totem: old(totem)@, host: *old(host) },
                Start { object, action_name: action_name@, vars: data_view(vars@), pc, has_state },
                hops as nat,
                depth as nat,
            );
            &&& c.world == World { totem: final(totem)@, host: *final(host) }
            &&& c.result == values_view(r)
        }),
        host_keeps_valid::<H>() && valid_store(old(totem)@) && valid_data(data_view(vars@))
            ==> valid_store(final(totem)@) && (r matches Ok(v) ==> valid_fields(
            fields_view(v@),
        )),
    decreases 6 * depth + 5, hops,
{
    proof {
        if host_keeps_valid::<H>() && valid_store(totem@) && valid_data(data_view(vars@)) {
            crate::validity::lemma_call(
                types_view(types@),
                limits,
                World { totem: totem@, host: *host },
                Start { object, action_name: action_name@, vars: data_view(vars@), pc, has_state },
                hops as nat,
                depth as nat,
            );
        }
    }
    proof {
        reveal(call);
    }
    let ghost goal = call(
        types_view(types@),
        limits,
        World { totem: totem@, host: *host },
        Start { object, action_name: action_name@, vars: data_view(vars@), pc, has_state },
        hops as nat,
        depth as nat,
    );
    let mut object = object;
    let mut action_name = action_name;
    let mut vars = vars;
    let mut pc = pc;
    let mut has_state = has_state;
    let mut hops = hops;
    loop
        invariant
            totem@.wf(),
            totem@.objects.len() >= old(totem)@.objects.len(),
            goal == call(
                types_view(types@),
                limits,
                World { totem: totem@, host: *host },
                Start { object, action_name: action_name@, vars: data_view(vars@), pc, has_state },
                hops as nat,
                depth as nat,
            ),
        decreases hops,
    {
        if hops == 0 {
            return Err(Fault::LimitReached);
        }
        if !totem.has(object) {
            return Err(Fault::KeyError);
        }
        let object_type = totem.type_of(object).clone();
        let alg = get_algorithm(types, &object_type, &action_name)?;
        let mut taken: Data = Dict::new();
        std::mem::swap(&mut vars, &mut taken);
        match execute_algorithm(
            totem,
            host,
            types,
            limits,
            object,
            &action_name,
            &alg.steps,
            taken,
            pc,
            has_state,
            limits.steps,
            depth,
        )? {
            AlgorithmResult::ReturnVals(vals) => {
                return Ok(vals);
            },
            AlgorithmResult::ContinueLoop { .. } => {
                return Ok(none());
            },
            AlgorithmResult::ExternContinuation {
                object: next_object,
                action_name: next_name,
                vars: next_vars,
                has_state: next_state,
            } => {
                object = next_object;
                action_name = next_name;
                vars = next_vars;
                pc = 0;
                has_state = next_state;
                hops = hops - 1;
            },
        }
    }
}

/// Makes a fresh object of `object_type` and runs its constructor
/// `init_name` on it, to its completion or first wait.
#[verifier::spinoff_prover]
pub fn execute_ctor<H: Flop>(
    totem: &mut Totem,
    host: &mut H,
    types: &Dict<ObjectType>,
    limits: Limits,
    object_type: String,
    init_name: String,
    args: Vec<Field>,
    depth: usize,
) -> (r: Result<Object, Fault>)
    requires
        old(totem)@.wf(),
    ensures
        final(totem)@.wf(),
        final(totem)@.objects.len() >= old(totem)@.objects.len(),
        ({
            let c = construct(
                types_view(types@),
                limits,
                World { totem: old(totem)@, host: *old(host) },
                object_type@,
                init_name@,
                fields_view(args@),
                depth as nat,
            );
            &&& c.world == World { totem: final(totem)@, host: *final(host) }
            &&& c.result == r
        }),
        host_keeps_valid::<H>() && valid_store(old(totem)@) && valid_fields(fields_view(args@))
            ==> valid_store(final(totem)@),
    decreases 6 * depth + 6, 0int,
{
    proof {
        if host_keeps_valid::<H>() && valid_store(totem@) && valid_fields(fields_view(args@)) {
            crate::validity::lemma_construct(
                types_view(types@),
                limits,
                World { totem: totem@, host: *host },
                object_type@,
                init_name@,
                fields_view(args@),
                depth as nat,
            );
        }
    }
    proof {
        reveal(construct);
    }
    let new = strong(totem, ObjectData::new(object_type.clone()));
    let alg = get_algorithm(types, &object_type, &init_name)?;
    let vars = bind_args(&alg.param_list, &args);
    let _ = execute_action(
        totem,
        host,
        types,
        limits,
        new,
        init_name,
        vars,
        0,
        false,
        limits.steps,
        depth,
    )?;
    Ok(new)
}

/// Constructs an object of `object_type` through its table `table_name`:
/// runs the constructor that the table binds to `init_name` on a fresh
/// object, to its completion or first wait, and gives the object bound to the
/// table.
#[verifier::spinoff_prover]
pub fn execute_init<H: Flop>(
    totem: &mut Totem,
    host: &mut H,
    types: &Dict<ObjectType>,
    limits: Limits,
    object_type: String,
    table_name: String,
    init_name: String,
    args: Vec<Field>,
) -> (r: Result<ObjectRef, Fault>)
    requires
        old(totem)@.wf(),
    ensures
        final(totem)@.wf(),
        final(totem)@.objects.len() >= old(totem)@.objects.len(),
        ({
            let m = init(
                types_view(types@),
                limits,
                World { totem: old(totem)@, host: *old(host) },
                object_type@,
                table_name@,
                init_name@,
                fields_view(args@),
            );
            &&& m.0 == World { totem: final(totem)@, host: *final(host) }
            &&& match r {
                Ok(x) => m.1 == Ok::<ObjectRefView, Fault>(x@),
                Err(f) => m.1 == Err::<ObjectRefView, Fault>(f),
            }
        }),
        host_keeps_valid::<H>() && valid_store(old(totem)@) && valid_fields(fields_view(args@))
            ==> valid_store(final(totem)@),
{
    proof {
        if host_keeps_valid::<H>() && valid_store(totem@) && valid_fields(fields_view(args@)) {
            law_construct_keeps_valid(
                types_view(types@),
                limits,
                World { totem: totem@, host: *host },
                object_type@,
                table_name@,
                init_name@,
                fields_view(args@),
            );
        }
    }
    let alg_name = match get_algorithm_name(types, &object_type, &table_name, &init_name) {
        Ok(name) => name.clone(),
        Err(f) => {
            return Err(f);
        },
    };
    let new = execute_ctor(totem, host, types, limits, object_type, alg_name, args, limits.depth)?;
    Ok(ObjectRef { table: table_name, data: new })
}

/// Resumes `object` in its algorithm `action_name` at `pc`, as the wake-up
/// of a wait does: the bundle that the object kept becomes the variables of
/// the activation.
#[verifier::spinoff_prover]
pub fn execute_resume<H: Flop>(
    totem: &mut Totem,
    host: &mut H,
    types: &Dict<ObjectType>,
    limits: Limits,
    object: Object,
    action_name: String,
    pc: usize,
) -> (r: Result<Vec<Field>, Fault>)
    requires
        old(totem)@.wf(),
    ensures
        final(totem)@.wf(),
        final(totem)@.objects.len() >= old(totem)@.objects.len(),
        ({
            let c = resume(
                types_view(types@),
                limits,
                World { totem: old(totem)@, host: *old(host) },
                object,
                action_name@,
                pc,
            );
            &&& c.world == World { totem: final(totem)@, host: *final(host) }
            &&& c.result == values_view(r)
        }),
        host_keeps_valid::<H>() && valid_store(old(totem)@) ==> valid_store(final(totem)@) && (
        r matches Ok(v) ==> valid_fields(fields_view(v@))),
{
    proof {
        if host_keeps_valid::<H>() && valid_store(totem@) {
            law_resume_keeps_valid(
                types_view(types@),
                limits,
                World { totem: totem@, host: *host },
                object,
                action_name@,
                pc,
            );
        }
    }
    if !totem.has(object) {
        return Err(Fault::KeyError);
    }
    let vars = totem.take_data(object);
    execute_action(
        totem,
        host,
        types,
        limits,
        object,
        action_name,
        vars,
        pc,
        false,
        limits.steps,
        limits.depth,
    )
}

impl View for ExecType {
    type V = ExecTypeView;

    open spec fn view(&self) -> ExecTypeView {
        match self {
            ExecType::Ctor(args) => ExecTypeView::Ctor(fields_view(args@)),
            ExecType::Fun(args) => ExecTypeView::Fun(fields_view(args@)),
            ExecType::Resume(pc) => ExecTypeView::Resume(*pc),
        }
    }
}

/// Calls the algorithm `algorithm_name` on `object` from outside: as a
/// constructor or as a function with arguments, or to resume the object at a
/// program counter.
#[verifier::spinoff_prover]
pub fn execute<H: Flop>(
    totem: &mut Totem,
    host: &mut H,
    types: &Dict<ObjectType>,
    limits: Limits,
    object: Object,
    algorithm_name: String,
    input: ExecType,
) -> (r: Result<Vec<Field>, Fault>)
    requires
        old(totem)@.wf(),
    ensures
        final(totem)@.wf(),
        final(totem)@.objects.len() >= old(totem)@.objects.len(),
        ({
            let c = crate::semantics::execute(
                types_view(types@),
                limits,
                World { totem: old(totem)@, host: *old(host) },
                object,
                algorithm_name@,
                input@,
            );
            &&& c.world == World { totem: final(totem)@, host: *final(host) }
            &&& c.result == values_view(r)
        }),
{
    let (args, has_state) = match input {
        ExecType::Resume(pc) => {
            return execute_resume(totem, host, types, limits, object, algorithm_name, pc);
        },
        ExecType::Ctor(args) => (args, false),
        ExecType::Fun(args) => (args, true),
    };
    if !totem.has(object) {
        return Err(Fault::KeyError);
    }
    let object_type = totem.type_of(object).clone();
    let alg = get_algorithm(types, &object_type, &algorithm_name)?;
    let vars = bind_args(&alg.param_list, &args);
    execute_action(
        totem,
        host,
        types,
        limits,
        object,
        algorithm_name,
        vars,
        0,
        has_state,
        limits.steps,
        limits.depth,
    )
}

} // verus!
