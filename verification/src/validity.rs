//! Valid values: no set names an object twice and no mapping has a key
//! twice, however deep in a value. Algorithms keep values valid.

use vstd::prelude::*;
use vstd::string::*;
use crate::ast::CompareOp;
use crate::data::{
    bool_view, law_set_add_idempotent, law_set_remove_present, lemma_set_drop_last, set_distinct,
    DataView, FieldView, Members, Num, Object, ObjectDataView, ObjectRefView, OutputView,
    TotemView,
};
use crate::event::Time;
use crate::instance::Flop;
use crate::item::{algorithm, algorithm_name, TypesView};
use crate::prelude::{
    dict_distinct, dict_find, dict_get, dict_insert, dict_remove, lemma_dict_distinct,
    lemma_dict_find, Entries, Fault,
};
use crate::runtime::{ExpressionView, StatementView, TablePathView};
use crate::semantics::{
    assign, begin_wait, bind, bind_upto, call, construct, dead_code_warning, destructure, eval,
    eval_arith, eval_chain, eval_comparison, eval_data, eval_exec_object, eval_extern_call,
    eval_fields, eval_init_object, eval_list, eval_virtualize, goto, init, invoke, iterate, jump,
    leave, listed, next, perform, pump, resume, run, set_builtin, single, sole, step,
    step_branch, step_debug_nums, step_evaluate, step_iterate, step_pattern, step_return,
    step_set_add, step_set_remove, step_state, step_wait, AlgorithmResultView, Called,
    Constructed, Evaluated, Frame, Limits, Ran, Start, Stepped, World,
};

verus! {

/// Whether a value is valid: a set in it names no object twice, and a
/// record in it has no field twice and only valid values.
pub open spec fn valid_field(v: FieldView) -> bool
    decreases v,
{
    match v {
        FieldView::Data(name, fields) => dict_distinct(fields) && forall|i: int|
            0 <= i < fields.len() ==> valid_field((#[trigger] fields[i]).1),
        FieldView::ObjectSet(s) => set_distinct(s),
        _ => true,
    }
}

/// Whether a mapping is valid: no name occurs twice and every value is valid.
pub open spec fn valid_data(d: DataView) -> bool {
    dict_distinct(d) && forall|i: int| 0 <= i < d.len() ==> valid_field((#[trigger] d[i]).1)
}

/// Whether every value of a list is valid.
pub open spec fn valid_fields(v: Seq<FieldView>) -> bool {
    forall|i: int| 0 <= i < v.len() ==> valid_field(#[trigger] v[i])
}

/// Whether the bundle of every object of the store is valid.
pub open spec fn valid_store(t: TotemView) -> bool {
    forall|x: int| 0 <= x < t.objects.len() ==> valid_data((#[trigger] t.objects[x]).data)
}

/// Whether the values with which an activation ended are valid.
pub open spec fn valid_result(r: AlgorithmResultView) -> bool {
    match r {
        AlgorithmResultView::ExternContinuation { vars, .. } => valid_data(vars),
        AlgorithmResultView::ContinueLoop { vars } => valid_data(vars),
        AlgorithmResultView::ReturnVals(vals) => valid_fields(vals),
    }
}

/// Whether the host answers valid arguments with valid values.
pub open spec fn host_keeps_valid<H: Flop>() -> bool {
    forall|h: H, name: Seq<char>, args: Seq<FieldView>|
        valid_fields(args) ==> valid_fields((#[trigger] h.call_model(name, args)).1)
}

/// A record is valid exactly when its fields are a valid mapping.
pub proof fn lemma_valid_record(name: Seq<char>, fields: DataView)
    ensures
        valid_field(FieldView::Data(name, fields)) == valid_data(fields),
{
}

/// Lists of one valid value, of none, and of two valid lists are valid.
pub proof fn lemma_valid_lists(a: Seq<FieldView>, b: Seq<FieldView>, v: FieldView)
    ensures
        valid_fields(Seq::empty()),
        valid_field(v) ==> valid_fields(seq![v]),
        valid_fields(a) && valid_fields(b) ==> valid_fields(a + b),
        valid_field(bool_view(true)),
        valid_field(bool_view(false)),
        valid_data(Seq::empty()),
{
    if valid_fields(a) && valid_fields(b) {
        assert forall|i: int| 0 <= i < (a + b).len() implies valid_field(#[trigger] (a + b)[i]) by {
            if i < a.len() {
                assert((a + b)[i] == a[i]);
            } else {
                assert((a + b)[i] == b[i - a.len()]);
            }
        }
    }
    lemma_valid_record("True"@, Seq::empty());
    lemma_valid_record("False"@, Seq::empty());
}

/// What a valid mapping holds under a name is valid, and binding a name to
/// a valid value or taking a name out keeps the mapping valid.
pub proof fn lemma_valid_data(d: DataView, key: Seq<char>, v: FieldView)
    requires
        valid_data(d),
    ensures
        dict_get(d, key) matches Some(x) ==> valid_field(x),
        valid_field(v) ==> valid_data(dict_insert(d, key, v)),
        valid_data(dict_remove(d, key)),
{
    lemma_dict_find(d, key);
    lemma_dict_distinct(d, key, v);
    if valid_field(v) {
        let a = dict_insert(d, key, v);
        assert forall|i: int| 0 <= i < a.len() implies valid_field((#[trigger] a[i]).1) by {
            match dict_find(d, key) {
                Some(k) => {
                    if i != k {
                        assert(a[i] == d[i]);
                    }
                },
                None => {
                    if i < d.len() {
                        assert(a[i] == d[i]);
                    }
                },
            }
        }
    }
    let b = dict_remove(d, key);
    assert forall|i: int| 0 <= i < b.len() implies valid_field((#[trigger] b[i]).1) by {
        match dict_find(d, key) {
            Some(k) => {
                let o = if i < k {
                    i
                } else {
                    i + 1
                };
                assert(b[i] == d[o]);
            },
            None => {},
        }
    }
}

/// Arguments bound to parameters make a valid mapping.
pub proof fn lemma_valid_bind(params: Seq<Seq<char>>, args: Seq<FieldView>, n: int)
    requires
        valid_fields(args),
        n <= args.len(),
    ensures
        valid_data(bind_upto(params, args, n)),
        n == (if params.len() <= args.len() {
            params.len() as int
        } else {
            args.len() as int
        }) ==> valid_data(bind(params, args)),
    decreases n,
{
    if n > 0 {
        lemma_valid_bind(params, args, n - 1);
        lemma_valid_data(bind_upto(params, args, n - 1), params[n - 1], args[n - 1]);
    }
}

/// Values bound to names keep a mapping valid.
pub proof fn lemma_valid_assign(
    names: Seq<Seq<char>>,
    vals: Seq<FieldView>,
    i: int,
    vars: DataView,
)
    requires
        valid_data(vars),
        valid_fields(vals),
    ensures
        valid_data(assign(names, vals, i, vars)),
    decreases names.len() - i,
{
    if 0 <= i < names.len() && i < vals.len() {
        lemma_valid_data(vars, names[i], vals[i]);
        lemma_valid_assign(names, vals, i + 1, dict_insert(vars, names[i], vals[i]));
    }
}

/// The fields of a valid record, bound as variables, keep the variables
/// valid.
pub proof fn lemma_valid_destructure(
    fields: Seq<Seq<char>>,
    i: int,
    record: DataView,
    vars: DataView,
)
    requires
        valid_data(record),
        valid_data(vars),
    ensures
        destructure(fields, i, record, vars) matches Ok(bound) ==> valid_data(bound),
    decreases fields.len() - i,
{
    if 0 <= i < fields.len() {
        lemma_valid_data(record, fields[i], FieldView::TRef(0));
        match dict_get(record, fields[i]) {
            None => {},
            Some(v) => {
                lemma_valid_data(vars, fields[i], v);
                lemma_valid_destructure(
                    fields,
                    i + 1,
                    dict_remove(record, fields[i]),
                    dict_insert(vars, fields[i], v),
                );
            },
        }
    }
}

/// The built-ins of sets keep the variables valid and give valid values.
pub proof fn lemma_valid_set_builtin(
    vars: DataView,
    name: Seq<char>,
    s: Members,
    action: Seq<char>,
    vals: Seq<FieldView>,
)
    requires
        valid_data(vars),
        set_distinct(s),
    ensures
        valid_data(set_builtin(vars, name, s, action, vals).0),
        set_builtin(vars, name, s, action, vals).1 matches Ok(v) ==> valid_fields(v),
{
    lemma_valid_lists(Seq::empty(), Seq::empty(), FieldView::TRef(0));
    if vals.len() == 1 && vals[0] is VRef {
        law_set_add_idempotent(s, vals[0]->VRef_0);
        law_set_remove_present(s, vals[0]->VRef_0.data);
        lemma_valid_data(
            vars,
            name,
            FieldView::ObjectSet(crate::data::set_add(s, vals[0]->VRef_0)),
        );
        lemma_valid_data(
            vars,
            name,
            FieldView::ObjectSet(crate::data::set_remove(s, vals[0]->VRef_0.data)),
        );
    }
    if s.len() > 0 {
        lemma_set_drop_last(s);
        lemma_valid_data(vars, name, FieldView::ObjectSet(s.drop_last()));
        lemma_valid_lists(Seq::empty(), Seq::empty(), FieldView::VRef(s.last()));
    }
    lemma_valid_lists(Seq::empty(), Seq::empty(), bool_view(s.len() != 0));
}

/// The operations of the store keep it valid, where the state that an
/// object takes is valid.
pub proof fn lemma_valid_store(
    t: TotemView,
    x: Object,
    name: Seq<char>,
    data: DataView,
    line: OutputView,
    action_name: Seq<char>,
    pc: usize,
    time: Time,
)
    requires
        valid_store(t),
    ensures
        valid_store(t.emit(line)),
        valid_store(t.with_fresh(name)),
        t.has(x) ==> valid_store(t.cancel_pending(x)),
        t.has(x) ==> valid_store(t.clear_state(x)),
        t.has(x) ==> valid_store(t.take_data(x)),
        t.has(x) ==> valid_store(t.schedule(x, action_name, pc, time)),
        t.has(x) && valid_data(data) ==> valid_store(t.set_state(x, name, data)),
        t.has(x) ==> valid_data(t.objects[x as int].data),
{
    lemma_valid_lists(Seq::empty(), Seq::empty(), FieldView::TRef(0));
    let f = t.with_fresh(name);
    assert forall|y: int| 0 <= y < f.objects.len() implies valid_data(
        (#[trigger] f.objects[y]).data,
    ) by {
        if y < t.objects.len() {
            assert(f.objects[y] == t.objects[y]);
        }
    }
    if t.has(x) {
        let c = t.cancel_pending(x);
        assert forall|y: int| 0 <= y < c.objects.len() implies valid_data(
            (#[trigger] c.objects[y]).data,
        ) by {
            assert(c.objects[y].data == t.objects[y].data);
        }
        let l = t.clear_state(x);
        assert forall|y: int| 0 <= y < l.objects.len() implies valid_data(
            (#[trigger] l.objects[y]).data,
        ) by {
            if y != x {
                assert(l.objects[y].data == c.objects[y].data);
            }
        }
        let k = t.take_data(x);
        assert forall|y: int| 0 <= y < k.objects.len() implies valid_data(
            (#[trigger] k.objects[y]).data,
        ) by {
            if y != x {
                assert(k.objects[y] == t.objects[y]);
            }
        }
        let s = t.schedule(x, action_name, pc, time);
        assert forall|y: int| 0 <= y < s.objects.len() implies valid_data(
            (#[trigger] s.objects[y]).data,
        ) by {
            assert(s.objects[y].data == c.objects[y].data);
        }
        if valid_data(data) {
            let n = t.set_state(x, name, data);
            assert forall|y: int| 0 <= y < n.objects.len() implies valid_data(
                (#[trigger] n.objects[y]).data,
            ) by {
                if y != x {
                    assert(n.objects[y].data == c.objects[y].data);
                }
            }
        }
    }
}

/// Whether an evaluation left everything valid: the store, which has every
/// object it had, the variables, and the values it gave.
pub open spec fn eval_valid<H>(before: TotemView, r: Evaluated<H>) -> bool {
    &&& valid_store(r.world.totem)
    &&& before.objects.len() <= r.world.totem.objects.len()
    &&& valid_data(r.vars)
    &&& r.result matches Ok(vals) ==> valid_fields(vals)
}

/// Whether a call left the store and its values valid.
pub open spec fn call_valid<H>(before: TotemView, r: Called<H>) -> bool {
    &&& valid_store(r.world.totem)
    &&& before.objects.len() <= r.world.totem.objects.len()
    &&& r.result matches Ok(vals) ==> valid_fields(vals)
}

/// Whether an instruction left everything valid.
pub open spec fn step_valid<H>(before: TotemView, s: Stepped<H>) -> bool {
    match s {
        Stepped::Next(w, pc, vars, flag) => valid_store(w.totem) && before.objects.len()
            <= w.totem.objects.len() && valid_data(vars),
        Stepped::Exit(w, flag, result) => valid_store(w.totem) && before.objects.len()
            <= w.totem.objects.len() && valid_result(result),
        Stepped::Fault(w, f) => valid_store(w.totem) && before.objects.len()
            <= w.totem.objects.len(),
    }
}

/// Whether an activation left the store and what it ended with valid.
pub open spec fn run_valid<H>(before: TotemView, r: Ran<H>) -> bool {
    &&& valid_store(r.world.totem)
    &&& before.objects.len() <= r.world.totem.objects.len()
    &&& r.result matches Ok(result) ==> valid_result(result)
}

/// The beginning of a wait keeps the store valid.
pub proof fn lemma_valid_wait<H: Flop>(
    world: World<H>,
    object: Object,
    action_name: Seq<char>,
    val: FieldView,
    resume: usize,
)
    requires
        valid_store(world.totem),
        world.totem.has(object),
    ensures
        match begin_wait(world, object, action_name, val, resume) {
            Ok(w) => valid_store(w.totem) && w.totem.objects.len() == world.totem.objects.len(),
            Err(e) => valid_store(e.0.totem) && e.0.totem.objects.len()
                == world.totem.objects.len(),
        },
{
    match val {
        FieldView::Num(duration) => match H::advance_model(world.totem.queue.now, duration) {
            Some(time) => {
                lemma_valid_store(
                    world.totem,
                    object,
                    Seq::empty(),
                    Seq::empty(),
                    OutputView::Text(Seq::empty()),
                    action_name,
                    resume,
                    time,
                );
            },
            None => {},
        },
        _ => {},
    }
}

/// An evaluation keeps the store and the variables valid and gives valid
/// values.
#[verifier::spinoff_prover]
pub proof fn lemma_eval<H: Flop>(
    types: TypesView,
    limits: Limits,
    world: World<H>,
    vars: DataView,
    object: Object,
    e: ExpressionView,
    depth: nat,
)
    requires
        host_keeps_valid::<H>(),
        valid_store(world.totem),
        valid_data(vars),
        world.totem.has(object),
    ensures
        eval_valid(world.totem, eval(types, limits, world, vars, object, e, depth)),
    decreases 6 * depth + 1, 0int, e, 1int,
{
    reveal(eval);
    lemma_valid_lists(Seq::empty(), Seq::empty(), FieldView::TRef(0));
    match e {
        ExpressionView::Var(name) => {
            lemma_valid_data(vars, name, FieldView::TRef(0));
            match dict_get(vars, name) {
                Some(v) => lemma_valid_lists(Seq::empty(), Seq::empty(), v),
                None => {},
            }
        },
        ExpressionView::InitSet => {
            lemma_valid_lists(Seq::empty(), Seq::empty(), FieldView::ObjectSet(Seq::empty()));
        },
        ExpressionView::SelfObject => {
            lemma_valid_lists(Seq::empty(), Seq::empty(), FieldView::TRef(object));
        },
        ExpressionView::SelfData => {
            let o = world.totem.objects[object as int];
            lemma_valid_record(o.state_name, o.data);
            lemma_valid_lists(Seq::empty(), Seq::empty(), FieldView::Data(o.state_name, o.data));
        },
        ExpressionView::Const(x) => {
            lemma_valid_lists(Seq::empty(), Seq::empty(), FieldView::Num(x));
        },
        ExpressionView::InitObject { .. } => lemma_eval_init_object(
            types,
            limits,
            world,
            vars,
            object,
            e,
            depth,
        ),
        ExpressionView::ExecObject { .. } => lemma_eval_exec_object(
            types,
            limits,
            world,
            vars,
            object,
            e,
            depth,
        ),
        ExpressionView::ExternCall { .. } => lemma_eval_extern_call(
            types,
            limits,
            world,
            vars,
            object,
            e,
            depth,
        ),
        ExpressionView::VirtualizeObject { .. } => lemma_eval_virtualize(
            types,
            limits,
            world,
            vars,
            object,
            e,
            depth,
        ),
        ExpressionView::Data { .. } => lemma_eval_data(
            types,
            limits,
            world,
            vars,
            object,
            e,
            depth,
        ),
        ExpressionView::Comparison(_, _) => lemma_eval_comparison(types, limits, world, vars, object, e, depth),
        ExpressionView::Arith(_, _, _) => lemma_eval_arith(types, limits, world, vars, object, e, depth),
    }
}

/// A construction inside an expression keeps everything valid.
#[verifier::spinoff_prover]
pub proof fn lemma_eval_init_object<H: Flop>(
    types: TypesView,
    limits: Limits,
    world: World<H>,
    vars: DataView,
    object: Object,
    e: ExpressionView,
    depth: nat,
)
    requires
        host_keeps_valid::<H>(),
        valid_store(world.totem),
        valid_data(vars),
        world.totem.has(object),
    ensures
        eval_valid(world.totem, eval_init_object(types, limits, world, vars, object, e, depth)),
    decreases 6 * depth + 1, 0int, e, 0int,
{
    reveal(eval_init_object);
    lemma_valid_lists(Seq::empty(), Seq::empty(), FieldView::TRef(0));
    match e {
        ExpressionView::InitObject { object_type, table_name, init_name, args } => {
            let a = eval_list(types, limits, world, vars, object, args, 0, Seq::empty(), depth);
            lemma_eval_list(types, limits, world, vars, object, args, 0, Seq::empty(), depth);
            match a.result {
                Err(_) => {},
                Ok(vals) => match algorithm_name(types, object_type, table_name, init_name) {
                    None => {},
                    Some(alg_name) => if depth > 0 {
                        lemma_construct(
                            types,
                            limits,
                            a.world,
                            object_type,
                            alg_name,
                            vals,
                            (depth - 1) as nat,
                        );
                        let c = construct(
                            types,
                            limits,
                            a.world,
                            object_type,
                            alg_name,
                            vals,
                            (depth - 1) as nat,
                        );
                        match c.result {
                            Ok(new) => lemma_valid_lists(
                                Seq::empty(),
                                Seq::empty(),
                                FieldView::VRef(
                                    crate::data::ObjectRefView { table: table_name, data: new },
                                ),
                            ),
                            Err(_) => {},
                        }
                    },
                },
            }
        },
        _ => {},
    }
}

/// A method call inside an expression keeps everything valid.
#[verifier::spinoff_prover]
pub proof fn lemma_eval_exec_object<H: Flop>(
    types: TypesView,
    limits: Limits,
    world: World<H>,
    vars: DataView,
    object: Object,
    e: ExpressionView,
    depth: nat,
)
    requires
        host_keeps_valid::<H>(),
        valid_store(world.totem),
        valid_data(vars),
        world.totem.has(object),
    ensures
        eval_valid(world.totem, eval_exec_object(types, limits, world, vars, object, e, depth)),
    decreases 6 * depth + 1, 0int, e, 0int,
{
    reveal(eval_exec_object);
    lemma_valid_lists(Seq::empty(), Seq::empty(), FieldView::TRef(0));
    match e {
        ExpressionView::ExecObject { object_name, action_name, args } => {
            let a = eval_list(types, limits, world, vars, object, args, 0, Seq::empty(), depth);
            lemma_eval_list(types, limits, world, vars, object, args, 0, Seq::empty(), depth);
            match a.result {
                Err(_) => {},
                Ok(vals) => {
                    lemma_valid_data(a.vars, object_name, FieldView::TRef(0));
                    match dict_get(a.vars, object_name) {
                        None => if depth > 0 {
                            lemma_construct(
                                types,
                                limits,
                                a.world,
                                object_name,
                                action_name,
                                vals,
                                (depth - 1) as nat,
                            );
                            let c = construct(
                                types,
                                limits,
                                a.world,
                                object_name,
                                action_name,
                                vals,
                                (depth - 1) as nat,
                            );
                            match c.result {
                                Ok(new) => lemma_valid_lists(Seq::empty(), Seq::empty(), FieldView::TRef(new)),
                                Err(_) => {},
                            }
                        },
                        Some(FieldView::ObjectSet(s)) => {
                            lemma_valid_set_builtin(a.vars, object_name, s, action_name, vals);
                        },
                        Some(FieldView::TRef(target)) => {
                            lemma_invoke(
                                types,
                                limits,
                                a.world,
                                target,
                                None,
                                action_name,
                                vals,
                                depth,
                            );
                        },
                        Some(FieldView::VRef(r)) => {
                            lemma_invoke(
                                types,
                                limits,
                                a.world,
                                r.data,
                                Some(r.table),
                                action_name,
                                vals,
                                depth,
                            );
                        },
                        Some(_) => {},
                    }
                },
            }
        },
        _ => {},
    }
}

/// A call of the host keeps everything valid, where the host keeps values
/// valid.
#[verifier::spinoff_prover]
pub proof fn lemma_eval_extern_call<H: Flop>(
    types: TypesView,
    limits: Limits,
    world: World<H>,
    vars: DataView,
    object: Object,
    e: ExpressionView,
    depth: nat,
)
    requires
        host_keeps_valid::<H>(),
        valid_store(world.totem),
        valid_data(vars),
        world.totem.has(object),
    ensures
        eval_valid(world.totem, eval_extern_call(types, limits, world, vars, object, e, depth)),
    decreases 6 * depth + 1, 0int, e, 0int,
{
    reveal(eval_extern_call);
    lemma_valid_lists(Seq::empty(), Seq::empty(), FieldView::TRef(0));
    match e {
        ExpressionView::ExternCall { function_name, args } => {
            let a = eval_list(types, limits, world, vars, object, args, 0, Seq::empty(), depth);
            lemma_eval_list(types, limits, world, vars, object, args, 0, Seq::empty(), depth);
            match a.result {
                Ok(vals) => {
                    assert(valid_fields(a.world.host.call_model(function_name, vals).1));
                },
                Err(_) => {},
            }
        },
        _ => {},
    }
}

/// Binding an object to an interface keeps everything valid.
#[verifier::spinoff_prover]
pub proof fn lemma_eval_virtualize<H: Flop>(
    types: TypesView,
    limits: Limits,
    world: World<H>,
    vars: DataView,
    object: Object,
    e: ExpressionView,
    depth: nat,
)
    requires
        host_keeps_valid::<H>(),
        valid_store(world.totem),
        valid_data(vars),
        world.totem.has(object),
    ensures
        eval_valid(world.totem, eval_virtualize(types, limits, world, vars, object, e, depth)),
    decreases 6 * depth + 1, 0int, e, 0int,
{
    reveal(eval_virtualize);
    lemma_valid_lists(Seq::empty(), Seq::empty(), FieldView::TRef(0));
    match e {
        ExpressionView::VirtualizeObject { interface_name, object: inner } => {
            lemma_eval(types, limits, world, vars, object, *inner, depth);
            let r = single(eval(types, limits, world, vars, object, *inner, depth));
            match r.result {
                Ok(vals) => match vals[0] {
                    FieldView::TRef(target) => lemma_valid_lists(
                        Seq::empty(),
                        Seq::empty(),
                        FieldView::VRef(
                            crate::data::ObjectRefView { table: interface_name, data: target },
                        ),
                    ),
                    _ => {},
                },
                Err(_) => {},
            }
        },
        _ => {},
    }
}

/// A record constructor keeps everything valid and gives a valid record.
#[verifier::spinoff_prover]
pub proof fn lemma_eval_data<H: Flop>(
    types: TypesView,
    limits: Limits,
    world: World<H>,
    vars: DataView,
    object: Object,
    e: ExpressionView,
    depth: nat,
)
    requires
        host_keeps_valid::<H>(),
        valid_store(world.totem),
        valid_data(vars),
        world.totem.has(object),
    ensures
        eval_valid(world.totem, eval_data(types, limits, world, vars, object, e, depth)),
    decreases 6 * depth + 1, 0int, e, 0int,
{
    reveal(eval_data);
    lemma_valid_lists(Seq::empty(), Seq::empty(), FieldView::TRef(0));
    match e {
        ExpressionView::Data { name, fields } => {
            lemma_eval_fields(types, limits, world, vars, object, fields, 0, Seq::empty(), depth);
            let r = eval_fields(types, limits, world, vars, object, fields, 0, Seq::empty(), depth);
            match r.1 {
                Ok(data) => {
                    lemma_valid_record(name, data);
                    lemma_valid_lists(Seq::empty(), Seq::empty(), FieldView::Data(name, data));
                },
                Err(_) => {},
            }
        },
        _ => {},
    }
}

/// A comparison chain keeps everything valid.
#[verifier::spinoff_prover]
pub proof fn lemma_eval_comparison<H: Flop>(
    types: TypesView,
    limits: Limits,
    world: World<H>,
    vars: DataView,
    object: Object,
    e: ExpressionView,
    depth: nat,
)
    requires
        host_keeps_valid::<H>(),
        valid_store(world.totem),
        valid_data(vars),
        world.totem.has(object),
    ensures
        eval_valid(world.totem, eval_comparison(types, limits, world, vars, object, e, depth)),
    decreases 6 * depth + 1, 0int, e, 0int,
{
    reveal(eval_comparison);
    lemma_valid_lists(Seq::empty(), Seq::empty(), FieldView::TRef(0));
    match e {
        ExpressionView::Comparison(first, links) => {
            lemma_eval(types, limits, world, vars, object, *first, depth);
            let r = single(eval(types, limits, world, vars, object, *first, depth));
            match r.result {
                Err(_) => {},
                Ok(vals) => match vals[0] {
                    FieldView::Num(x) => {
                        lemma_eval_chain(
                            types,
                            limits,
                            r.world,
                            r.vars,
                            object,
                            x,
                            links,
                            0,
                            depth,
                        );
                    },
                    _ => {},
                },
            }
        },
        _ => {},
    }
}

/// An arithmetic operation keeps everything valid.
#[verifier::spinoff_prover]
pub proof fn lemma_eval_arith<H: Flop>(
    types: TypesView,
    limits: Limits,
    world: World<H>,
    vars: DataView,
    object: Object,
    e: ExpressionView,
    depth: nat,
)
    requires
        host_keeps_valid::<H>(),
        valid_store(world.totem),
        valid_data(vars),
        world.totem.has(object),
    ensures
        eval_valid(world.totem, eval_arith(types, limits, world, vars, object, e, depth)),
    decreases 6 * depth + 1, 0int, e, 0int,
{
    reveal(eval_arith);
    lemma_valid_lists(Seq::empty(), Seq::empty(), FieldView::TRef(0));
    match e {
        ExpressionView::Arith(op, left, right) => {
            lemma_eval(types, limits, world, vars, object, *left, depth);
            let a = single(eval(types, limits, world, vars, object, *left, depth));
            match a.result {
                Err(_) => {},
                Ok(avals) => match avals[0] {
                    FieldView::Num(x) => {
                        lemma_eval(types, limits, a.world, a.vars, object, *right, depth);
                        let b = single(eval(types, limits, a.world, a.vars, object, *right, depth));
                        match b.result {
                            Ok(bvals) => match bvals[0] {
                                FieldView::Num(y) => lemma_valid_lists(
                                    Seq::empty(),
                                    Seq::empty(),
                                    FieldView::Num(H::arith_model(op, x, y)),
                                ),
                                _ => {},
                            },
                            Err(_) => {},
                        }
                    },
                    _ => {},
                },
            }
        },
        _ => {},
    }
}

/// A list of expressions keeps everything valid.
#[verifier::spinoff_prover]
pub proof fn lemma_eval_list<H: Flop>(
    types: TypesView,
    limits: Limits,
    world: World<H>,
    vars: DataView,
    object: Object,
    exprs: Seq<ExpressionView>,
    i: int,
    acc: Seq<FieldView>,
    depth: nat,
)
    requires
        host_keeps_valid::<H>(),
        valid_store(world.totem),
        valid_data(vars),
        world.totem.has(object),
        valid_fields(acc),
    ensures
        eval_valid(
            world.totem,
            eval_list(types, limits, world, vars, object, exprs, i, acc, depth),
        ),
    decreases 6 * depth + 1, 0int, exprs, exprs.len() - i,
{
    reveal(eval_list);
    lemma_valid_lists(Seq::empty(), Seq::empty(), FieldView::TRef(0));
    if 0 <= i < exprs.len() {
        lemma_eval(types, limits, world, vars, object, exprs[i], depth);
        let r = eval(types, limits, world, vars, object, exprs[i], depth);
        match r.result {
            Err(_) => {},
            Ok(vals) => {
                lemma_valid_lists(acc, vals, FieldView::TRef(0));
                lemma_eval_list(
                    types,
                    limits,
                    r.world,
                    r.vars,
                    object,
                    exprs,
                    i + 1,
                    acc + vals,
                    depth,
                );
            },
        }
    }
}

/// The fields of a record keep everything valid and make a valid mapping.
#[verifier::spinoff_prover]
pub proof fn lemma_eval_fields<H: Flop>(
    types: TypesView,
    limits: Limits,
    world: World<H>,
    vars: DataView,
    object: Object,
    fields: Entries<ExpressionView>,
    i: int,
    acc: DataView,
    depth: nat,
)
    requires
        host_keeps_valid::<H>(),
        valid_store(world.totem),
        valid_data(vars),
        world.totem.has(object),
        valid_data(acc),
    ensures
        eval_valid(world.totem, eval_fields(types, limits, world, vars, object, fields, i, acc, depth).0) && (eval_fields(types, limits, world, vars, object, fields, i, acc, depth).1 matches Ok(data) ==> valid_data(data)),
    decreases 6 * depth + 1, 0int, fields, fields.len() - i,
{
    reveal(eval_fields);
    lemma_valid_lists(Seq::empty(), Seq::empty(), FieldView::TRef(0));
    if 0 <= i < fields.len() {
        lemma_eval(types, limits, world, vars, object, fields[i].1, depth);
        let r = single(eval(types, limits, world, vars, object, fields[i].1, depth));
        match r.result {
            Err(_) => {},
            Ok(vals) => {
                let next_acc = dict_insert(acc, fields[i].0, vals[0]);
                lemma_valid_data(acc, fields[i].0, vals[0]);
                lemma_eval_fields(
                    types,
                    limits,
                    r.world,
                    r.vars,
                    object,
                    fields,
                    i + 1,
                    next_acc,
                    depth,
                );
            },
        }
    }
}

/// The links of a comparison chain keep everything valid.
#[verifier::spinoff_prover]
pub proof fn lemma_eval_chain<H: Flop>(
    types: TypesView,
    limits: Limits,
    world: World<H>,
    vars: DataView,
    object: Object,
    x: Num,
    links: Seq<(CompareOp, ExpressionView)>,
    i: int,
    depth: nat,
)
    requires
        host_keeps_valid::<H>(),
        valid_store(world.totem),
        valid_data(vars),
        world.totem.has(object),
    ensures
        eval_valid(world.totem, eval_chain(types, limits, world, vars, object, x, links, i, depth)),
    decreases 6 * depth + 1, 0int, links, links.len() - i,
{
    reveal(eval_chain);
    lemma_valid_lists(Seq::empty(), Seq::empty(), FieldView::TRef(0));
    lemma_valid_lists(Seq::empty(), Seq::empty(), bool_view(true));
    lemma_valid_lists(Seq::empty(), Seq::empty(), bool_view(false));
    if 0 <= i < links.len() {
        lemma_eval(types, limits, world, vars, object, links[i].1, depth);
        let r = single(eval(types, limits, world, vars, object, links[i].1, depth));
        match r.result {
            Err(_) => {},
            Ok(vals) => match vals[0] {
                FieldView::Num(y) => if H::compare_model(links[i].0, x, y) {
                    lemma_eval_chain(
                        types,
                        limits,
                        r.world,
                        r.vars,
                        object,
                        y,
                        links,
                        i + 1,
                        depth,
                    );
                },
                _ => {},
            },
        }
    }
}

/// A method call keeps the store valid and returns valid values.
#[verifier::spinoff_prover]
pub proof fn lemma_invoke<H: Flop>(
    types: TypesView,
    limits: Limits,
    world: World<H>,
    target: Object,
    table: Option<Seq<char>>,
    action_name: Seq<char>,
    vals: Seq<FieldView>,
    depth: nat,
)
    requires
        host_keeps_valid::<H>(),
        valid_store(world.totem),
        valid_fields(vals),
    ensures
        call_valid(
            world.totem,
            invoke(types, limits, world, target, table, action_name, vals, depth),
        ),
    decreases 6 * depth, 0int,
{
    reveal(invoke);
    lemma_valid_lists(Seq::empty(), Seq::empty(), FieldView::TRef(0));
    if world.totem.has(target) {
        let object_type = world.totem.objects[target as int].object_type;
        let alg_name = match table {
            Some(t) => algorithm_name(types, object_type, t, action_name),
            None => Some(action_name),
        };
        match alg_name {
            None => {},
            Some(name) => match algorithm(types, object_type, name) {
                None => {},
                Some(alg) => if depth > 0 {
                    lemma_valid_bind(
                        alg.param_list,
                        vals,
                        if alg.param_list.len() <= vals.len() {
                            alg.param_list.len() as int
                        } else {
                            vals.len() as int
                        },
                    );
                    lemma_call(
                        types,
                        limits,
                        world,
                        Start {
                            object: target,
                            action_name: name,
                            vars: bind(alg.param_list, vals),
                            pc: 0,
                            has_state: true,
                        },
                        limits.steps as nat,
                        (depth - 1) as nat,
                    );
                },
            },
        }
    }
}

/// A construction keeps the store valid.
#[verifier::spinoff_prover]
pub proof fn lemma_construct<H: Flop>(
    types: TypesView,
    limits: Limits,
    world: World<H>,
    object_type: Seq<char>,
    init_name: Seq<char>,
    args: Seq<FieldView>,
    depth: nat,
)
    requires
        host_keeps_valid::<H>(),
        valid_store(world.totem),
        valid_fields(args),
    ensures
        valid_store(
            construct(types, limits, world, object_type, init_name, args, depth).world.totem,
        )
            && world.totem.objects.len() <= construct(
            types,
            limits,
            world,
            object_type,
            init_name,
            args,
            depth,
        ).world.totem.objects.len(),
    decreases 6 * depth + 6, 0int,
{
    reveal(construct);
    lemma_valid_lists(Seq::empty(), Seq::empty(), FieldView::TRef(0));
    let new = world.totem.objects.len() as Object;
    let made = World { totem: world.totem.with_fresh(object_type), host: world.host };
    lemma_valid_store(
        world.totem,
        0,
        object_type,
        Seq::empty(),
        OutputView::Text(Seq::empty()),
        Seq::empty(),
        0,
        Time { key: 0 },
    );
    match algorithm(types, object_type, init_name) {
        None => {},
        Some(alg) => {
            lemma_valid_bind(
                alg.param_list,
                args,
                if alg.param_list.len() <= args.len() {
                    alg.param_list.len() as int
                } else {
                    args.len() as int
                },
            );
            let start = Start {
                object: new,
                action_name: init_name,
                vars: bind(alg.param_list, args),
                pc: 0,
                has_state: false,
            };
            lemma_call(types, limits, made, start, limits.steps as nat, depth);
        },
    }
}

/// A call keeps the store valid and returns valid values.
#[verifier::spinoff_prover]
pub proof fn lemma_call<H: Flop>(
    types: TypesView,
    limits: Limits,
    world: World<H>,
    start: Start,
    hops: nat,
    depth: nat,
)
    requires
        host_keeps_valid::<H>(),
        valid_store(world.totem),
        valid_data(start.vars),
    ensures
        call_valid(world.totem, call(types, limits, world, start, hops, depth)),
    decreases 6 * depth + 5, hops,
{
    reveal(call);
    lemma_valid_lists(Seq::empty(), Seq::empty(), FieldView::TRef(0));
    if hops > 0 && world.totem.has(start.object) {
        match algorithm(
            types,
            world.totem.objects[start.object as int].object_type,
            start.action_name,
        ) {
            None => {},
            Some(alg) => {
                let frame = Frame {
                    object: start.object,
                    action_name: start.action_name,
                    code: alg.steps,
                    pc: start.pc,
                    vars: start.vars,
                    has_state: start.has_state,
                };
                lemma_run(types, limits, world, frame, limits.steps as nat, depth);
                let r = run(types, limits, world, frame, limits.steps as nat, depth);
                match r.result {
                    Ok(
                        AlgorithmResultView::ExternContinuation {
                            object,
                            action_name,
                            vars,
                            has_state,
                        },
                    ) => {
                        let then = Start { object, action_name, vars, pc: 0, has_state };
                        lemma_call(types, limits, r.world, then, (hops - 1) as nat, depth);
                    },
                    _ => {},
                }
            },
        }
    }
}

/// An activation keeps the store valid and ends with valid values.
#[verifier::spinoff_prover]
pub proof fn lemma_run<H: Flop>(
    types: TypesView,
    limits: Limits,
    world: World<H>,
    frame: Frame,
    steps: nat,
    depth: nat,
)
    requires
        host_keeps_valid::<H>(),
        valid_store(world.totem),
        valid_data(frame.vars),
        world.totem.has(frame.object),
    ensures
        run_valid(world.totem, run(types, limits, world, frame, steps, depth)),
    decreases 6 * depth + 4, steps,
{
    reveal(run);
    lemma_valid_lists(Seq::empty(), Seq::empty(), FieldView::TRef(0));
    if frame.pc < frame.code.len() && steps > 0 {
        lemma_perform(types, limits, world, frame, frame.code[frame.pc as int], depth);
        match step(types, limits, world, frame, depth) {
            Stepped::Next(w, pc, vars, has_state) => {
                let frame2 = Frame { pc, vars, has_state, ..frame };
                lemma_run(types, limits, w, frame2, (steps - 1) as nat, depth);
            },
            _ => {},
        }
    }
}

/// Every instruction keeps everything valid.
#[verifier::spinoff_prover]
pub proof fn lemma_perform<H: Flop>(
    types: TypesView,
    limits: Limits,
    world: World<H>,
    frame: Frame,
    instr: StatementView,
    depth: nat,
)
    requires
        host_keeps_valid::<H>(),
        valid_store(world.totem),
        valid_data(frame.vars),
        world.totem.has(frame.object),
    ensures
        step_valid(world.totem, perform(types, limits, world, frame, instr, depth)),
    decreases 6 * depth + 3, 1int,
{
    reveal(perform);
    lemma_valid_lists(Seq::empty(), Seq::empty(), FieldView::TRef(0));
    lemma_valid_store(
        world.totem,
        frame.object,
        Seq::empty(),
        Seq::empty(),
        match instr {
            StatementView::Debug(text) => OutputView::Text(text),
            _ => OutputView::Text(Seq::empty()),
        },
        Seq::empty(),
        0,
        Time { key: 0 },
    );
    match instr {
        StatementView::GotoAlg { table, alg_name, args } => lemma_goto(
            types,
            limits,
            world,
            frame,
            table,
            alg_name,
            args,
            depth,
        ),
        StatementView::DebugNums(_) => lemma_step_values(types, limits, world, frame, instr, depth),
        StatementView::Evaluate { .. } => lemma_step_values(
            types,
            limits,
            world,
            frame,
            instr,
            depth,
        ),
        StatementView::Return(_) => lemma_step_values(types, limits, world, frame, instr, depth),
        StatementView::State(_) => lemma_step_single(types, limits, world, frame, instr, depth),
        StatementView::Wait(_) => lemma_step_single(types, limits, world, frame, instr, depth),
        StatementView::Branch { .. } => lemma_step_single(
            types,
            limits,
            world,
            frame,
            instr,
            depth,
        ),
        StatementView::PatternBranch { .. } => lemma_step_single(
            types,
            limits,
            world,
            frame,
            instr,
            depth,
        ),
        StatementView::SetAdd { .. } => lemma_step_single(
            types,
            limits,
            world,
            frame,
            instr,
            depth,
        ),
        StatementView::SetRemove { .. } => lemma_step_single(
            types,
            limits,
            world,
            frame,
            instr,
            depth,
        ),
        StatementView::SetIterate { .. } => lemma_step_iterate(
            types,
            limits,
            world,
            frame,
            instr,
            depth,
        ),
        _ => {},
    }
}

/// The instructions that evaluate a list keep everything valid.
#[verifier::spinoff_prover]
pub proof fn lemma_step_values<H: Flop>(
    types: TypesView,
    limits: Limits,
    world: World<H>,
    frame: Frame,
    instr: StatementView,
    depth: nat,
)
    requires
        host_keeps_valid::<H>(),
        valid_store(world.totem),
        valid_data(frame.vars),
        world.totem.has(frame.object),
        instr is DebugNums || instr is Evaluate || instr is Return,
    ensures
        step_valid(world.totem, perform(types, limits, world, frame, instr, depth)),
    decreases 6 * depth + 3, 0int,
{
    reveal(perform);
    reveal(step_debug_nums);
    reveal(step_evaluate);
    reveal(step_return);
    lemma_valid_lists(Seq::empty(), Seq::empty(), FieldView::TRef(0));
    lemma_eval_list(
        types,
        limits,
        world,
        frame.vars,
        frame.object,
        listed(instr),
        0,
        Seq::empty(),
        depth,
    );
    let r = eval_list(
        types,
        limits,
        world,
        frame.vars,
        frame.object,
        listed(instr),
        0,
        Seq::empty(),
        depth,
    );
    match r.result {
        Ok(vals) => {
            lemma_valid_store(
                r.world.totem,
                frame.object,
                Seq::empty(),
                Seq::empty(),
                match crate::semantics::nums_of(vals) {
                    Some(nums) => OutputView::Nums(nums),
                    None => OutputView::Text(Seq::empty()),
                },
                Seq::empty(),
                0,
                Time { key: 0 },
            );
            match instr {
                StatementView::Evaluate { expressions, results } => {
                    lemma_valid_assign(results, vals, 0, r.vars);
                },
                _ => {},
            }
            let next = frame.pc + 1;
            if instr is Return && next < frame.code.len() && frame.code[next] is Wait {
                let e = frame.code[next]->Wait_0;
                lemma_eval(types, limits, r.world, r.vars, frame.object, e, depth);
                let t = single(eval(types, limits, r.world, r.vars, frame.object, e, depth));
                if t.result is Ok {
                    lemma_valid_wait(
                        t.world,
                        frame.object,
                        frame.action_name,
                        t.result->Ok_0[0],
                        (next + 1) as usize,
                    );
                }
            }
        },
        Err(_) => {},
    }
}

/// The instructions that evaluate one expression keep everything valid.
#[verifier::spinoff_prover]
pub proof fn lemma_step_single<H: Flop>(
    types: TypesView,
    limits: Limits,
    world: World<H>,
    frame: Frame,
    instr: StatementView,
    depth: nat,
)
    requires
        host_keeps_valid::<H>(),
        valid_store(world.totem),
        valid_data(frame.vars),
        world.totem.has(frame.object),
        instr is State || instr is Wait || instr is Branch || instr is PatternBranch
            || instr is SetAdd || instr is SetRemove,
    ensures
        step_valid(world.totem, perform(types, limits, world, frame, instr, depth)),
    decreases 6 * depth + 3, 0int,
{
    reveal(perform);
    reveal(step_state);
    reveal(step_wait);
    reveal(step_branch);
    reveal(step_pattern);
    reveal(step_set_add);
    reveal(step_set_remove);
    lemma_valid_lists(Seq::empty(), Seq::empty(), FieldView::TRef(0));
    if !(instr is State && frame.has_state) {
        lemma_eval(types, limits, world, frame.vars, frame.object, sole(instr), depth);
        let r = single(eval(types, limits, world, frame.vars, frame.object, sole(instr), depth));
        match r.result {
            Ok(vals) => {
                let v = vals[0];
                assert(valid_field(v));
                match instr {
                    StatementView::State(_) => match v {
                        FieldView::Data(name, data) => {
                            lemma_valid_record(name, data);
                            lemma_valid_store(
                                r.world.totem,
                                frame.object,
                                name,
                                data,
                                OutputView::Text(Seq::empty()),
                                Seq::empty(),
                                0,
                                Time { key: 0 },
                            );
                        },
                        _ => {},
                    },
                    StatementView::Wait(_) => {
                        lemma_valid_wait(
                            r.world,
                            frame.object,
                            frame.action_name,
                            v,
                            (frame.pc + 1) as usize,
                        );
                    },
                    StatementView::PatternBranch { data, arms, default_offset } => match v {
                        FieldView::Data(tag, record) => {
                            lemma_valid_record(tag, record);
                            match dict_get(arms, tag) {
                                Some(arm) => lemma_valid_destructure(arm.fields, 0, record, r.vars),
                                None => {},
                            }
                        },
                        _ => {},
                    },
                    StatementView::SetAdd { set_name, to_add } => {
                        lemma_valid_data(r.vars, set_name, FieldView::TRef(0));
                        match (v, dict_get(r.vars, set_name)) {
                            (FieldView::VRef(x), Some(FieldView::ObjectSet(s))) => {
                                law_set_add_idempotent(s, x);
                                lemma_valid_data(
                                    r.vars,
                                    set_name,
                                    FieldView::ObjectSet(crate::data::set_add(s, x)),
                                );
                            },
                            _ => {},
                        }
                    },
                    StatementView::SetRemove { set_name, to_remove } => {
                        lemma_valid_data(r.vars, set_name, FieldView::TRef(0));
                        match (v, dict_get(r.vars, set_name)) {
                            (FieldView::VRef(x), Some(FieldView::ObjectSet(s))) => {
                                law_set_remove_present(s, x.data);
                                lemma_valid_data(
                                    r.vars,
                                    set_name,
                                    FieldView::ObjectSet(crate::data::set_remove(s, x.data)),
                                );
                            },
                            _ => {},
                        }
                    },
                    _ => {},
                }
            },
            Err(_) => {},
        }
    }
}

/// A loop over a set keeps everything valid.
#[verifier::spinoff_prover]
pub proof fn lemma_step_iterate<H: Flop>(
    types: TypesView,
    limits: Limits,
    world: World<H>,
    frame: Frame,
    instr: StatementView,
    depth: nat,
)
    requires
        host_keeps_valid::<H>(),
        valid_store(world.totem),
        valid_data(frame.vars),
        world.totem.has(frame.object),
        instr is SetIterate,
    ensures
        step_valid(world.totem, perform(types, limits, world, frame, instr, depth)),
    decreases 6 * depth + 3, 0int,
{
    reveal(perform);
    reveal(step_iterate);
    lemma_valid_lists(Seq::empty(), Seq::empty(), FieldView::TRef(0));
    match instr {
        StatementView::SetIterate { var_name, set_name, break_offset } => {
            lemma_valid_data(frame.vars, set_name, FieldView::TRef(0));
            match dict_get(frame.vars, set_name) {
                Some(FieldView::ObjectSet(s)) => {
                    lemma_iterate(
                        types,
                        limits,
                        world,
                        frame,
                        var_name,
                        s,
                        0,
                        dict_remove(frame.vars, set_name),
                        depth,
                    );
                    let r = iterate(
                        types,
                        limits,
                        world,
                        frame,
                        var_name,
                        s,
                        0,
                        dict_remove(frame.vars, set_name),
                        depth,
                    );
                    match r.1 {
                        Ok(vars) => lemma_valid_data(vars, set_name, FieldView::ObjectSet(s)),
                        Err(_) => {},
                    }
                },
                _ => {},
            }
        },
        _ => {},
    }
}

/// The rounds of a loop keep everything valid.
#[verifier::spinoff_prover]
pub proof fn lemma_iterate<H: Flop>(
    types: TypesView,
    limits: Limits,
    world: World<H>,
    frame: Frame,
    var_name: Seq<char>,
    members: Members,
    k: int,
    vars: DataView,
    depth: nat,
)
    requires
        host_keeps_valid::<H>(),
        valid_store(world.totem),
        valid_data(vars),
        world.totem.has(frame.object),
    ensures
        valid_store(iterate(types, limits, world, frame, var_name, members, k, vars, depth).0.totem)
            && world.totem.objects.len() <= iterate(
            types,
            limits,
            world,
            frame,
            var_name,
            members,
            k,
            vars,
            depth,
        ).0.totem.objects.len() && (iterate(
            types,
            limits,
            world,
            frame,
            var_name,
            members,
            k,
            vars,
            depth,
        ).1 matches Ok(after) ==> valid_data(after)),
    decreases 6 * depth + 2, members.len() - k,
{
    reveal(iterate);
    lemma_valid_lists(Seq::empty(), Seq::empty(), FieldView::TRef(0));
    if 0 <= k < members.len() && depth > 0 {
        lemma_valid_data(vars, var_name, FieldView::VRef(members[k]));
        let body = Frame {
            pc: (frame.pc + 1) as usize,
            vars: dict_insert(vars, var_name, FieldView::VRef(members[k])),
            ..frame
        };
        lemma_run(types, limits, world, body, limits.steps as nat, (depth - 1) as nat);
        let r = run(types, limits, world, body, limits.steps as nat, (depth - 1) as nat);
        match r.result {
            Ok(AlgorithmResultView::ContinueLoop { vars: after }) => {
                lemma_iterate(
                    types,
                    limits,
                    r.world,
                    frame,
                    var_name,
                    members,
                    k + 1,
                    after,
                    depth,
                );
            },
            _ => {},
        }
    }
}

/// A tail dispatch keeps everything valid.
#[verifier::spinoff_prover]
pub proof fn lemma_goto<H: Flop>(
    types: TypesView,
    limits: Limits,
    world: World<H>,
    frame: Frame,
    table: TablePathView,
    alg_name: Seq<char>,
    args: Seq<ExpressionView>,
    depth: nat,
)
    requires
        host_keeps_valid::<H>(),
        valid_store(world.totem),
        valid_data(frame.vars),
        world.totem.has(frame.object),
    ensures
        step_valid(world.totem, goto(types, limits, world, frame, table, alg_name, args, depth)),
    decreases 6 * depth + 2, 0int,
{
    reveal(goto);
    lemma_valid_lists(Seq::empty(), Seq::empty(), FieldView::TRef(0));
    let next = frame.pc + 1;
    let waits = next < frame.code.len() && frame.code[next] is Wait;
    lemma_valid_store(
        world.totem,
        frame.object,
        Seq::empty(),
        Seq::empty(),
        OutputView::Text(dead_code_warning()),
        Seq::empty(),
        0,
        Time { key: 0 },
    );
    if waits {
        let e = frame.code[next]->Wait_0;
        lemma_eval(types, limits, world, frame.vars, frame.object, e, depth);
        let r = single(eval(types, limits, world, frame.vars, frame.object, e, depth));
        if r.result is Ok {
            lemma_valid_wait(
                r.world,
                frame.object,
                frame.action_name,
                r.result->Ok_0[0],
                (next + 1) as usize,
            );
        }
    }
    let waited: Result<(World<H>, DataView), (World<H>, Fault)> = if waits {
        let r = single(
            eval(types, limits, world, frame.vars, frame.object, frame.code[next]->Wait_0, depth),
        );
        match r.result {
            Err(f) => Err((r.world, f)),
            Ok(vals) => match begin_wait(
                r.world,
                frame.object,
                frame.action_name,
                vals[0],
                (next + 1) as usize,
            ) {
                Err(e) => Err(e),
                Ok(w) => Ok((w, r.vars)),
            },
        }
    } else if next < frame.code.len() {
        Ok(
            (
                World {
                    totem: world.totem.emit(OutputView::Text(dead_code_warning())),
                    host: world.host,
                },
                frame.vars,
            ),
        )
    } else {
        Ok((world, frame.vars))
    };
    match waited {
        Err(e) => {},
        Ok((w1, vars1)) => {
            assert(valid_store(w1.totem) && valid_data(vars1));
            assert(world.totem.objects.len() <= w1.totem.objects.len());
            let w2 = match table {
                TablePathView::Virtual(name) => w1,
                TablePathView::Static(object_type, table_name) => {
                    lemma_valid_store(
                        w1.totem,
                        0,
                        object_type,
                        Seq::empty(),
                        OutputView::Text(Seq::empty()),
                        Seq::empty(),
                        0,
                        Time { key: 0 },
                    );
                    World { totem: w1.totem.with_fresh(object_type), host: w1.host }
                },
            };
            lemma_eval_list(types, limits, w2, vars1, frame.object, args, 0, Seq::empty(), depth);
            let a = eval_list(types, limits, w2, vars1, frame.object, args, 0, Seq::empty(), depth);
            match a.result {
                Ok(vals) => {
                    assert forall|params: Seq<Seq<char>>| valid_data(#[trigger] bind(params, vals)) by {
                        lemma_valid_bind(
                            params,
                            vals,
                            if params.len() <= vals.len() {
                                params.len() as int
                            } else {
                                vals.len() as int
                            },
                        );
                    }
                },
                Err(_) => {},
            }
        },
    }
}

/// Construction keeps values valid: where the store and the arguments are
/// valid and the host keeps values valid, the store after a construction is
/// valid, whether it ended with a fault or not. No set in it names an object
/// twice, and no mapping in it has a name twice.
pub proof fn law_construct_keeps_valid<H: Flop>(
    types: TypesView,
    limits: Limits,
    world: World<H>,
    object_type: Seq<char>,
    table_name: Seq<char>,
    init_name: Seq<char>,
    args: Seq<FieldView>,
)
    requires
        host_keeps_valid::<H>(),
        valid_store(world.totem),
        valid_fields(args),
    ensures
        valid_store(init(types, limits, world, object_type, table_name, init_name, args).0.totem),
{
    match algorithm_name(types, object_type, table_name, init_name) {
        None => {},
        Some(alg_name) => {
            lemma_construct(types, limits, world, object_type, alg_name, args, limits.depth as nat);
        },
    }
}

/// A call of a method from outside keeps values valid, and the values it
/// returns are valid.
pub proof fn law_invoke_keeps_valid<H: Flop>(
    types: TypesView,
    limits: Limits,
    world: World<H>,
    target: Object,
    table: Option<Seq<char>>,
    action_name: Seq<char>,
    vals: Seq<FieldView>,
    depth: nat,
)
    requires
        host_keeps_valid::<H>(),
        valid_store(world.totem),
        valid_fields(vals),
    ensures
        call_valid(
            world.totem,
            invoke(types, limits, world, target, table, action_name, vals, depth),
        ),
{
    lemma_invoke(types, limits, world, target, table, action_name, vals, depth);
}

/// A resumption keeps values valid.
pub proof fn law_resume_keeps_valid<H: Flop>(
    types: TypesView,
    limits: Limits,
    world: World<H>,
    object: Object,
    action_name: Seq<char>,
    pc: usize,
)
    requires
        host_keeps_valid::<H>(),
        valid_store(world.totem),
    ensures
        call_valid(world.totem, resume(types, limits, world, object, action_name, pc)),
{
    if world.totem.has(object) {
        lemma_valid_store(
            world.totem,
            object,
            Seq::empty(),
            Seq::empty(),
            OutputView::Text(Seq::empty()),
            Seq::empty(),
            0,
            Time { key: 0 },
        );
        lemma_call(
            types,
            limits,
            World { totem: world.totem.take_data(object), host: world.host },
            Start {
                object,
                action_name,
                vars: world.totem.objects[object as int].data,
                pc,
                has_state: false,
            },
            limits.steps as nat,
            limits.depth as nat,
        );
    }
}

/// A turn of the scheduler keeps values valid.
pub proof fn law_pump_keeps_valid<H: Flop>(types: TypesView, limits: Limits, world: World<H>)
    requires
        host_keeps_valid::<H>(),
        valid_store(world.totem),
    ensures
        valid_store(pump(types, limits, world).0.totem),
{
    if world.totem.queue.pending.len() > 0 {
        let event = world.totem.queue.pending[0].event;
        let fired = World {
            totem: TotemView { queue: world.totem.queue.advance(), ..world.totem },
            host: world.host,
        };
        assert forall|x: int| 0 <= x < fired.totem.objects.len() implies valid_data(
            (#[trigger] fired.totem.objects[x]).data,
        ) by {
            assert(fired.totem.objects[x] == world.totem.objects[x]);
        }
        law_resume_keeps_valid(types, limits, fired, event.object, event.action_name, event.pc);
    }
}

/// Any number of turns of the scheduler keep values valid.
pub proof fn law_pump_many_keeps_valid<H: Flop>(
    types: TypesView,
    limits: Limits,
    world: World<H>,
    turns: nat,
    fired: nat,
)
    requires
        host_keeps_valid::<H>(),
        valid_store(world.totem),
    ensures
        valid_store(crate::semantics::pump_many(types, limits, world, turns, fired).0.totem),
    decreases turns,
{
    if turns > 0 {
        law_pump_keeps_valid(types, limits, world);
        let p = pump(types, limits, world);
        if p.1 == Ok::<bool, Fault>(true) {
            law_pump_many_keeps_valid(types, limits, p.0, (turns - 1) as nat, fired + 1);
        }
    }
}

/// Set idempotence at the interpreter: where a variable of valid variables
/// holds a set, adding a member to it twice leaves the variables as adding
/// it once does, with exactly one member for the object; and removing an
/// object that the set does not hold leaves the variables as they are.
pub proof fn law_builtin_add_twice(vars: DataView, name: Seq<char>, s: Members, x: ObjectRefView)
    requires
        valid_data(vars),
        dict_get(vars, name) == Some(FieldView::ObjectSet(s)),
    ensures
        ({
            let arg = seq![FieldView::VRef(x)];
            let once = set_builtin(vars, name, s, "add"@, arg);
            let added = crate::data::set_add(s, x);
            let twice = set_builtin(once.0, name, added, "add"@, arg);
            &&& once.1 is Ok
            &&& dict_get(once.0, name) == Some(FieldView::ObjectSet(added))
            &&& crate::data::set_count(added, x.data) == 1
            &&& twice.1 is Ok
            &&& twice.0 == once.0
            &&& valid_data(once.0)
        }),
        !crate::data::set_contains(s, x.data) ==> set_builtin(
            vars,
            name,
            s,
            "remove"@,
            seq![FieldView::VRef(x)],
        ).0 == vars,
{
    reveal_strlit("add");
    reveal_strlit("remove");
    let arg = seq![FieldView::VRef(x)];
    let added = crate::data::set_add(s, x);
    lemma_valid_data(vars, name, FieldView::TRef(0));
    assert(set_distinct(s)) by {
        lemma_dict_find(vars, name);
        assert(valid_field(vars[dict_find(vars, name).unwrap()].1));
    }
    law_set_add_idempotent(s, x);
    law_set_add_idempotent(added, x);
    let once = set_builtin(vars, name, s, "add"@, arg);
    crate::prelude::lemma_insert_get(vars, name, FieldView::ObjectSet(added), name);
    lemma_valid_data(vars, name, FieldView::ObjectSet(added));
    lemma_same_value(once.0, name, FieldView::ObjectSet(added));
    lemma_same_value(vars, name, FieldView::ObjectSet(s));
    if !crate::data::set_contains(s, x.data) {
        assert("add"@.len() == 3 && "remove"@.len() == 6);
        assert("remove"@ != "add"@);
        assert(arg.len() == 1 && arg[0] == FieldView::VRef(x));
        assert(crate::data::set_remove(s, x.data) == s);
        assert(set_builtin(vars, name, s, "remove"@, arg).0 == dict_insert(
            vars,
            name,
            FieldView::ObjectSet(s),
        ));
    }
}

/// Binding a name to the value it has changes nothing.
pub proof fn lemma_same_value(d: DataView, key: Seq<char>, v: FieldView)
    requires
        dict_get(d, key) == Some(v),
    ensures
        dict_insert(d, key, v) == d,
{
    lemma_dict_find(d, key);
    assert(dict_insert(d, key, v) =~= d);
}

} // verus!
