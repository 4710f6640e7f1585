use flop::algorithm::{evaluate_expression_into, execute, execute_method, wait, ExecType};
use flop::ast::CompareOp;
use flop::data::{Field, Num, Output};
use flop::event::Time;
use flop::instance::{Flop, FlopInstance};
use flop::item::{Interface, ObjectType};
use flop::prelude::{Dict, Fault};
use flop::runtime::{Algorithm, ArithOp, Expression, Statement, TablePath};
use flop::semantics::Limits;

struct Host {
    compared: usize,
}

fn num(x: f64) -> Num {
    Num { bits: x.to_bits() }
}

fn val(x: Num) -> f64 {
    f64::from_bits(x.bits)
}

impl Flop for Host {
    fn arith(&self, op: ArithOp, x: Num, y: Num) -> Num {
        let (a, b) = (val(x), val(y));
        num(match op {
            ArithOp::Add => a + b,
            ArithOp::Sub => a - b,
            ArithOp::Mul => a * b,
            ArithOp::Div => a / b,
            ArithOp::Pow => a.powf(b),
        })
    }

    fn compare(&self, op: CompareOp, x: Num, y: Num) -> bool {
        let (a, b) = (val(x), val(y));
        match op {
            CompareOp::Equals => a == b,
            CompareOp::NEquals => a != b,
            CompareOp::LessEq => a <= b,
            CompareOp::GreaterEq => a >= b,
            CompareOp::Greater => a > b,
            CompareOp::Less => a < b,
        }
    }

    fn advance(&self, now: Time, by: Num) -> Option<Time> {
        let d = val(by);
        if d.is_finite() && d >= 0.0 {
            Some(Time { key: (f64::from_bits(now.key) + d).to_bits() })
        } else {
            None
        }
    }

    fn extern_call(&mut self, func_name: &String, args: Vec<Field>) -> Vec<Field> {
        if func_name == "count" {
            self.compared += 1;
            vec![Field::Num(num(self.compared as f64))]
        } else if func_name == "pair" {
            vec![Field::Num(num(1.0)), Field::Num(num(2.0))]
        } else {
            args
        }
    }
}

fn s(text: &str) -> String {
    text.to_string()
}

fn dict<T>(entries: Vec<(&str, T)>) -> Dict<T> {
    let mut d = Dict::new();
    for (k, v) in entries {
        d.insert(s(k), v);
    }
    d
}

fn var(name: &str) -> Expression {
    Expression::Var(s(name))
}

fn konst(x: f64) -> Expression {
    Expression::Const(num(x))
}

fn let_(names: &[&str], exprs: Vec<Expression>) -> Statement {
    Statement::Evaluate { expressions: exprs, results: names.iter().map(|n| s(n)).collect() }
}

fn state(tag: &str, fields: &[&str]) -> Statement {
    Statement::State(Expression::Data {
        name: s(tag),
        fields: dict(fields.iter().map(|f| (*f, var(f))).collect()),
    })
}

fn one_type(algs: Vec<(&str, Vec<&str>, Vec<Statement>)>) -> Dict<ObjectType> {
    let names: Vec<&str> = algs.iter().map(|(n, _, _)| *n).collect();
    let t = ObjectType {
        interfaces: dict(vec![(
            "Main",
            Interface { implementors: dict(names.iter().map(|n| (*n, s(n))).collect()) },
        )]),
        algorithms: dict(
            algs.into_iter()
                .map(|(n, params, steps)| {
                    (n, Algorithm { param_list: params.iter().map(|p| s(p)).collect(), steps })
                })
                .collect(),
        ),
    };
    dict(vec![("A", t)])
}

fn game(types: Dict<ObjectType>) -> FlopInstance {
    FlopInstance::new(Time { key: 0 }, types, Limits { steps: 1000, depth: 16 })
}

fn fields_of(game: &FlopInstance, object: usize) -> Vec<(String, f64)> {
    game.totem.objects[object]
        .data
        .entries
        .iter()
        .map(|(k, v)| (k.clone(), v.num().map(val).unwrap_or(f64::NAN)))
        .collect()
}

/// Runs `steps` as a constructor with the arguments and gives the numbers of
/// the state that it sets.
fn run(params: Vec<&str>, args: Vec<Field>, steps: Vec<Statement>) -> Result<Vec<(String, f64)>, Fault> {
    let mut host = Host { compared: 0 };
    let mut game = game(one_type(vec![("init", params, steps), ("plain", vec![], vec![state("P", &[])])]));
    let made = game.construct(&mut host, s("A"), s("Main"), s("init"), args)?;
    Ok(fields_of(&game, made.data))
}

fn bin(op: fn(Box<Expression>, Box<Expression>) -> Expression, a: f64, b: f64) -> Expression {
    op(Box::new(konst(a)), Box::new(konst(b)))
}

#[test]
fn arithmetic_is_what_the_host_computes() {
    let steps = vec![
        let_(
            &["a", "b", "c", "d", "e"],
            vec![
                bin(Expression::Add, 7.0, 2.0),
                bin(Expression::Sub, 7.0, 2.0),
                bin(Expression::Mul, 7.0, 2.0),
                bin(Expression::Div, 7.0, 2.0),
                bin(Expression::Pow, 7.0, 2.0),
            ],
        ),
        state("S", &["a", "b", "c", "d", "e"]),
    ];
    let got: Vec<f64> = run(vec![], vec![], steps).unwrap().into_iter().map(|(_, v)| v).collect();
    assert_eq!(got, vec![9.0, 5.0, 14.0, 3.5, 49.0]);
}

#[test]
fn arithmetic_on_a_record_is_a_type_mismatch() {
    let bad = Expression::Add(
        Box::new(konst(1.0)),
        Box::new(Expression::Data { name: s("R"), fields: Dict::new() }),
    );
    assert_eq!(run(vec![], vec![], vec![let_(&["a"], vec![bad])]), Err(Fault::TypeMismatch));
}

#[test]
fn simultaneous_assignment_swaps() {
    let steps = vec![
        let_(&["x", "y"], vec![konst(1.0), konst(2.0)]),
        let_(&["x", "y"], vec![var("y"), var("x")]),
        state("S", &["x", "y"]),
    ];
    assert_eq!(run(vec![], vec![], steps), Ok(vec![(s("x"), 2.0), (s("y"), 1.0)]));
}

#[test]
fn values_bind_as_far_as_names_and_values_go() {
    let pair = Expression::ExternCall { function_name: s("pair"), args: vec![] };
    let steps = vec![
        let_(&["a", "b", "c"], vec![pair]),
        let_(&["d"], vec![konst(4.0), konst(5.0)]),
        state("S", &["a", "b", "d"]),
    ];
    assert_eq!(run(vec![], vec![], steps), Ok(vec![(s("a"), 1.0), (s("b"), 2.0), (s("d"), 4.0)]));
    let missing = vec![
        let_(&["a", "b", "c"], vec![Expression::ExternCall { function_name: s("pair"), args: vec![] }]),
        state("S", &["c"]),
    ];
    assert_eq!(run(vec![], vec![], missing), Err(Fault::KeyError));
}

fn chain(first: f64, links: Vec<(CompareOp, Expression)>) -> Expression {
    Expression::Comparison(Box::new(konst(first)), links)
}

fn truth_of(e: Expression) -> (Result<Vec<(String, f64)>, Fault>, usize) {
    let mut host = Host { compared: 0 };
    let steps = vec![
        Statement::Branch { condition: e, break_offset: 3 },
        let_(&["r"], vec![konst(1.0)]),
        Statement::Jump(2),
        let_(&["r"], vec![konst(0.0)]),
        state("S", &["r"]),
    ];
    let mut game = game(one_type(vec![("init", vec![], steps)]));
    let made = game.construct(&mut host, s("A"), s("Main"), s("init"), vec![]);
    (made.map(|m| fields_of(&game, m.data)), host.compared)
}

#[test]
fn comparison_chains_hold_when_every_link_holds() {
    let yes = chain(1.0, vec![(CompareOp::Less, konst(2.0)), (CompareOp::LessEq, konst(2.0)), (CompareOp::NEquals, konst(3.0))]);
    assert_eq!(truth_of(yes).0, Ok(vec![(s("r"), 1.0)]));
    let no = chain(1.0, vec![(CompareOp::Less, konst(2.0)), (CompareOp::Greater, konst(2.0))]);
    assert_eq!(truth_of(no).0, Ok(vec![(s("r"), 0.0)]));
    assert_eq!(truth_of(chain(1.0, vec![])).0, Ok(vec![(s("r"), 1.0)]));
    assert_eq!(truth_of(chain(3.0, vec![(CompareOp::GreaterEq, konst(3.0)), (CompareOp::Equals, konst(3.0))])).0, Ok(vec![(s("r"), 1.0)]));
}

#[test]
fn comparison_chain_stops_at_the_first_failed_link() {
    let count = || Expression::ExternCall { function_name: s("count"), args: vec![] };
    // 5 < count() (1) fails: the second link is never evaluated
    let e = chain(5.0, vec![(CompareOp::Less, count()), (CompareOp::Less, count())]);
    let (r, calls) = truth_of(e);
    assert_eq!(r, Ok(vec![(s("r"), 0.0)]));
    assert_eq!(calls, 1);
    let e = chain(0.0, vec![(CompareOp::Less, count()), (CompareOp::Less, count())]);
    let (r, calls) = truth_of(e);
    assert_eq!(r, Ok(vec![(s("r"), 1.0)]));
    assert_eq!(calls, 2);
}

#[test]
fn branch_on_a_number_is_a_type_mismatch() {
    assert_eq!(truth_of(konst(1.0)).0, Err(Fault::TypeMismatch));
}

#[test]
fn missing_variable_is_a_key_error() {
    assert_eq!(run(vec![], vec![], vec![let_(&["a"], vec![var("nothing")])]), Err(Fault::KeyError));
}

#[test]
fn arguments_bind_to_parameters_in_order() {
    let args = vec![Field::Num(num(1.0)), Field::Num(num(2.0)), Field::Num(num(3.0))];
    assert_eq!(
        run(vec!["a", "b"], args, vec![state("S", &["b", "a"])]),
        Ok(vec![(s("b"), 2.0), (s("a"), 1.0)])
    );
    assert_eq!(
        run(vec!["a", "b"], vec![Field::Num(num(1.0))], vec![state("S", &["b"])]),
        Err(Fault::KeyError)
    );
}

#[test]
fn pattern_branch_binds_the_fields_of_the_arm() {
    let record = Expression::Data {
        name: s("Point"),
        fields: dict(vec![("x", konst(3.0)), ("y", konst(4.0))]),
    };
    let arms = |fields: Vec<&str>| {
        dict(vec![("Point", (fields.into_iter().map(s).collect::<Vec<_>>(), 1usize))])
    };
    let steps = |fields: Vec<&str>| {
        vec![
            Statement::PatternBranch { data: record_clone(&record), arms: arms(fields), default_offset: 3 },
            state("Got", &["y", "x"]),
            Statement::Jump(2),
            state("Default", &[]),
        ]
    };
    assert_eq!(run(vec![], vec![], steps(vec!["x", "y"])), Ok(vec![(s("y"), 4.0), (s("x"), 3.0)]));
    assert_eq!(run(vec![], vec![], steps(vec!["x", "z"])), Err(Fault::KeyError));
    assert_eq!(run(vec![], vec![], steps(vec!["x", "x"])), Err(Fault::KeyError));
}

fn record_clone(e: &Expression) -> Expression {
    match e {
        Expression::Data { name, fields } => Expression::Data {
            name: name.clone(),
            fields: dict(
                fields
                    .entries
                    .iter()
                    .map(|(k, v)| (k.as_str(), match v {
                        Expression::Const(x) => Expression::Const(*x),
                        _ => Expression::SelfObject,
                    }))
                    .collect(),
            ),
        },
        _ => Expression::SelfObject,
    }
}

fn call_on(name: &str, action: &str, args: Vec<Expression>) -> Expression {
    Expression::ExecObject { object_name: s(name), action_name: s(action), args }
}

fn me() -> Expression {
    Expression::VirtualizeObject { interface_name: s("Main"), object: Box::new(Expression::SelfObject) }
}

#[test]
fn set_built_ins_work_on_the_variable() {
    let other = Expression::InitObject {
        object_type: s("A"),
        table_name: s("Main"),
        init_name: s("plain"),
        args: vec![],
    };
    let truth = |name: &str| Statement::Branch { condition: var(name), break_offset: 2 };
    let steps = vec![
        let_(&["set"], vec![Expression::InitSet]),
        let_(&["empty"], vec![call_on("set", "not_empty", vec![])]),
        let_(&[], vec![call_on("set", "add", vec![me()])]),
        let_(&[], vec![call_on("set", "add", vec![me()])]),
        let_(&[], vec![call_on("set", "add", vec![other])]),
        let_(&[], vec![call_on("set", "remove", vec![me()])]),
        let_(&[], vec![call_on("set", "unknown", vec![])]),
        let_(&["full"], vec![call_on("set", "not_empty", vec![])]),
        let_(&["got"], vec![call_on("set", "next", vec![])]),
        let_(&["left"], vec![call_on("set", "not_empty", vec![])]),
        let_(&["a", "b", "c"], vec![konst(0.0), konst(0.0), konst(0.0)]),
        truth("empty"),
        let_(&["a"], vec![konst(1.0)]),
        truth("full"),
        let_(&["b"], vec![konst(1.0)]),
        truth("left"),
        let_(&["c"], vec![konst(1.0)]),
        state("S", &["a", "b", "c"]),
    ];
    assert_eq!(
        run(vec![], vec![], steps),
        Ok(vec![(s("a"), 0.0), (s("b"), 1.0), (s("c"), 0.0)])
    );
}

#[test]
fn set_built_ins_fault_on_misuse() {
    let with_set = |call: Expression| {
        vec![let_(&["set"], vec![Expression::InitSet]), let_(&[], vec![call])]
    };
    assert_eq!(run(vec![], vec![], with_set(call_on("set", "next", vec![]))), Err(Fault::KeyError));
    assert_eq!(
        run(vec![], vec![], with_set(call_on("set", "add", vec![]))),
        Err(Fault::TypeMismatch)
    );
    assert_eq!(
        run(vec![], vec![], with_set(call_on("set", "add", vec![konst(1.0)]))),
        Err(Fault::TypeMismatch)
    );
    assert_eq!(
        run(vec![], vec![], with_set(call_on("set", "not_empty", vec![konst(1.0)]))),
        Err(Fault::TypeMismatch)
    );
    let on_number = vec![let_(&["n"], vec![konst(1.0)]), let_(&[], vec![call_on("n", "go", vec![])])];
    assert_eq!(run(vec![], vec![], on_number), Err(Fault::TypeMismatch));
    let add_to_number = vec![
        let_(&["n"], vec![konst(1.0)]),
        Statement::SetAdd { set_name: s("n"), to_add: me() },
    ];
    assert_eq!(run(vec![], vec![], add_to_number), Err(Fault::TypeMismatch));
    let add_to_nothing = vec![Statement::SetRemove { set_name: s("n"), to_remove: me() }];
    assert_eq!(run(vec![], vec![], add_to_nothing), Err(Fault::KeyError));
}

fn types_with_methods() -> Dict<ObjectType> {
    one_type(vec![
        ("init", vec![], vec![state("Made", &[])]),
        ("twice", vec!["n"], vec![Statement::Return(vec![
            Expression::Mul(Box::new(var("n")), Box::new(konst(2.0))),
            var("n"),
        ])]),
        (
            "ask",
            vec!["who"],
            vec![
                Statement::CancelWait,
                let_(&["d", "n"], vec![call_on("who", "twice", vec![konst(21.0)])]),
                let_(&["mine"], vec![Expression::SelfData]),
                state("Asked", &["d", "n"]),
            ],
        ),
    ])
}

#[test]
fn method_calls_return_their_values() {
    let mut host = Host { compared: 0 };
    let mut game = game(types_with_methods());
    let a = game.construct(&mut host, s("A"), s("Main"), s("init"), vec![]).unwrap();
    let b = game.construct(&mut host, s("A"), s("Main"), s("init"), vec![]).unwrap();
    // through the table that the handle is bound to
    let vals = execute_method(
        &mut game.totem,
        &mut host,
        &game.types,
        game.limits,
        a.data,
        Some(&a.table),
        &s("ask"),
        vec![Field::VRef(b.clone())],
        game.limits.depth,
    )
    .unwrap();
    assert!(vals.is_empty());
    assert_eq!(fields_of(&game, a.data), vec![(s("d"), 42.0), (s("n"), 21.0)]);
    assert_eq!(game.totem.objects[b.data].state_name, "Made");
    // on a raw handle the name is that of the algorithm
    let raw = execute(
        &mut game.totem,
        &mut host,
        &game.types,
        game.limits,
        a.data,
        s("ask"),
        ExecType::Fun(vec![Field::TRef(b.data)]),
    );
    assert!(raw.is_ok());
    let twice = execute(
        &mut game.totem,
        &mut host,
        &game.types,
        game.limits,
        b.data,
        s("twice"),
        ExecType::Fun(vec![Field::Num(num(4.0))]),
    )
    .unwrap();
    assert_eq!(twice.iter().map(|v| val(v.num().unwrap())).collect::<Vec<_>>(), vec![8.0, 4.0]);
}

#[test]
fn execute_begins_as_its_input_says() {
    let mut host = Host { compared: 0 };
    let mut game = game(types_with_methods());
    let a = game.construct(&mut host, s("A"), s("Main"), s("init"), vec![]).unwrap();
    // a constructor begins without a state and may set one
    let again = execute(&mut game.totem, &mut host, &game.types, game.limits, a.data, s("init"), ExecType::Ctor(vec![]));
    assert!(again.is_ok());
    // a function begins with a state and may not set one
    let twice = execute(&mut game.totem, &mut host, &game.types, game.limits, a.data, s("init"), ExecType::Fun(vec![]));
    assert_eq!(twice.err(), Some(Fault::ProtocolViolation));
    // a resumption takes the bundle and must set a state again
    let resumed = execute(&mut game.totem, &mut host, &game.types, game.limits, a.data, s("init"), ExecType::Resume(1));
    assert_eq!(resumed.err(), Some(Fault::ProtocolViolation));
    let resumed = execute(&mut game.totem, &mut host, &game.types, game.limits, a.data, s("init"), ExecType::Resume(0));
    assert!(resumed.is_ok());
    let missing = execute(&mut game.totem, &mut host, &game.types, game.limits, 9, s("init"), ExecType::Fun(vec![]));
    assert_eq!(missing.err(), Some(Fault::KeyError));
    let unknown = execute(&mut game.totem, &mut host, &game.types, game.limits, a.data, s("nope"), ExecType::Ctor(vec![]));
    assert_eq!(unknown.err(), Some(Fault::KeyError));
}

#[test]
fn objects_rest_after_every_call_that_returns() {
    let mut host = Host { compared: 0 };
    let wait = Statement::Wait(konst(1.0));
    let types = one_type(vec![
        ("init", vec![], vec![state("One", &[]), wait, state("Two", &[])]),
        ("plain", vec![], vec![state("P", &[])]),
        ("spawn", vec![], vec![
            Statement::CancelWait,
            let_(&["child"], vec![Expression::InitObject {
                object_type: s("A"),
                table_name: s("Main"),
                init_name: s("plain"),
                args: vec![],
            }]),
            state("Parent", &[]),
            Statement::GotoAlg { table: TablePath::Static(s("A"), s("Main")), alg_name: s("plain"), args: vec![] },
        ]),
    ]);
    let mut game = game(types);
    let resting = |game: &FlopInstance| game.totem.objects.iter().map(|o| o.resting).collect::<Vec<_>>();
    let a = game.construct(&mut host, s("A"), s("Main"), s("init"), vec![]).unwrap();
    assert_eq!(resting(&game), vec![true]);
    execute_method(&mut game.totem, &mut host, &game.types, game.limits, a.data, None, &s("spawn"), vec![], 8).unwrap();
    assert_eq!(resting(&game), vec![true, true, true]);
    assert!(game.totem.event_queue.is_empty());
    let b = game.construct(&mut host, s("A"), s("Main"), s("init"), vec![]).unwrap();
    assert_eq!(game.invoke_next(&mut host), Ok(true));
    assert_eq!(resting(&game), vec![true, true, true, true]);
    assert_eq!(game.totem.objects[b.data].state_name, "Two");
}

#[test]
fn virtual_dispatch_goes_through_the_bound_table() {
    let to_other = Statement::GotoAlg {
        table: TablePath::Virtual(s("other")),
        alg_name: s("poke"),
        args: vec![konst(5.0)],
    };
    let types = one_type(vec![
        ("init", vec![], vec![state("Made", &[])]),
        ("send", vec!["other"], vec![to_other]),
        ("poke", vec!["n"], vec![Statement::CancelWait, state("Poked", &["n"])]),
    ]);
    let mut host = Host { compared: 0 };
    let mut game = game(types);
    let a = game.construct(&mut host, s("A"), s("Main"), s("init"), vec![]).unwrap();
    let b = game.construct(&mut host, s("A"), s("Main"), s("init"), vec![]).unwrap();
    let send = |game: &mut FlopInstance, host: &mut Host, arg: Field| {
        execute_method(&mut game.totem, host, &game.types, game.limits, a.data, Some(&a.table), &s("send"), vec![arg], 4)
    };
    assert!(send(&mut game, &mut host, Field::VRef(b.clone())).is_ok());
    assert_eq!(game.totem.objects[b.data].state_name, "Poked");
    assert_eq!(fields_of(&game, b.data), vec![(s("n"), 5.0)]);
    assert_eq!(game.totem.objects[a.data].state_name, "Made");
    assert_eq!(send(&mut game, &mut host, Field::TRef(b.data)).err(), Some(Fault::TypeMismatch));
    assert_eq!(send(&mut game, &mut host, Field::VRef(flop::data::ObjectRef { table: s("Main"), data: 77 })).err(), Some(Fault::KeyError));
    assert_eq!(send(&mut game, &mut host, Field::VRef(flop::data::ObjectRef { table: s("Other"), data: b.data })).err(), Some(Fault::KeyError));
}

#[test]
fn dispatch_followed_by_wait_schedules_the_caller() {
    let types = one_type(vec![
        ("init", vec![], vec![state("Made", &[])]),
        ("plain", vec![], vec![state("P", &[])]),
        (
            "relay",
            vec![],
            vec![
                Statement::GotoAlg { table: TablePath::Static(s("A"), s("Main")), alg_name: s("plain"), args: vec![] },
                Statement::Wait(konst(2.0)),
                state("Back", &[]),
            ],
        ),
        (
            "dead",
            vec![],
            vec![
                Statement::GotoAlg { table: TablePath::Static(s("A"), s("Main")), alg_name: s("plain"), args: vec![] },
                Statement::Debug(s("never")),
            ],
        ),
    ]);
    let mut host = Host { compared: 0 };
    let mut game = game(types);
    let a = game.construct(&mut host, s("A"), s("Main"), s("init"), vec![]).unwrap();
    execute_method(&mut game.totem, &mut host, &game.types, game.limits, a.data, None, &s("relay"), vec![], 4).unwrap();
    assert_eq!(game.totem.objects.len(), 2);
    assert_eq!(game.totem.objects[1].state_name, "P");
    let pending = &game.totem.event_queue.pending[0];
    assert_eq!((pending.event.object, pending.event.pc, val(Num { bits: pending.time.key })), (a.data, 2, 2.0));
    assert_eq!(game.invoke_next(&mut host), Ok(true));
    assert_eq!(game.totem.objects[a.data].state_name, "Back");
    assert!(game.totem.output.is_empty());

    execute_method(&mut game.totem, &mut host, &game.types, game.limits, a.data, None, &s("dead"), vec![], 4).unwrap();
    assert_eq!(game.totem.output.len(), 1);
    assert!(matches!(&game.totem.output[0], Output::Text(t) if t.starts_with("Warning")));
}

#[test]
fn print_writes_numbers_to_the_output() {
    let mut host = Host { compared: 0 };
    let steps = vec![
        state("S", &[]),
        Statement::DebugNums(vec![konst(1.0), bin(Expression::Add, 1.0, 1.0)]),
        Statement::DebugNums(vec![]),
    ];
    let mut game = game(one_type(vec![("init", vec![], steps)]));
    game.construct(&mut host, s("A"), s("Main"), s("init"), vec![]).unwrap();
    let lines: Vec<Vec<f64>> = game
        .totem
        .output
        .iter()
        .map(|l| match l {
            Output::Nums(n) => n.iter().map(|x| val(*x)).collect(),
            Output::Text(_) => vec![f64::NAN],
        })
        .collect();
    assert_eq!(lines, vec![vec![1.0, 2.0], vec![]]);
    let bad = vec![state("S", &[]), Statement::DebugNums(vec![Expression::SelfObject])];
    assert_eq!(run(vec![], vec![], bad), Err(Fault::TypeMismatch));
}

#[test]
fn self_data_is_the_resting_state() {
    let steps = vec![
        let_(&["k"], vec![konst(6.0)]),
        state("First", &["k"]),
        let_(&["mine"], vec![Expression::SelfData]),
        Statement::PatternBranch {
            data: var("mine"),
            arms: dict(vec![("First", (vec![s("k")], 1usize))]),
            default_offset: 3,
        },
        Statement::CancelWait,
        Statement::State(Expression::Data {
            name: s("Second"),
            fields: dict(vec![("k", Expression::Mul(Box::new(var("k")), Box::new(konst(7.0))))]),
        }),
    ];
    assert_eq!(run(vec![], vec![], steps), Ok(vec![(s("k"), 42.0)]));
}

#[test]
fn constructing_by_type_name_gives_a_raw_handle() {
    // `A.plain()` where `A` is no variable constructs an object of type `A`
    let steps = vec![
        let_(&["made"], vec![call_on("A", "plain", vec![])]),
        let_(&["bound"], vec![Expression::VirtualizeObject {
            interface_name: s("Main"),
            object: Box::new(var("made")),
        }]),
        let_(&["set"], vec![Expression::InitSet]),
        Statement::SetAdd { set_name: s("set"), to_add: var("bound") },
        state("S", &[]),
    ];
    assert_eq!(run(vec![], vec![], steps), Ok(vec![]));
    let bad = vec![let_(&["bound"], vec![Expression::VirtualizeObject {
        interface_name: s("Main"),
        object: Box::new(konst(1.0)),
    }])];
    assert_eq!(run(vec![], vec![], bad), Err(Fault::TypeMismatch));
}

#[test]
fn wait_resumes_behind_the_place_it_is_given() {
    let host = Host { compared: 0 };
    let mut game = game(types_with_methods());
    let mut maker = Host { compared: 0 };
    let a = game.construct(&mut maker, s("A"), s("Main"), s("init"), vec![]).unwrap();
    game.totem.event_queue.now = Time { key: 2f64.to_bits() };
    let before = (game.totem.objects[a.data].state_name.clone(), game.totem.objects[a.data].data.len());
    assert_eq!(wait(&mut game.totem, &host, a.data, s("ask"), 7, &Field::Num(num(1.5))), Ok(()));
    assert_eq!(game.totem.event_queue.len(), 1);
    let p = &game.totem.event_queue.pending[0];
    assert_eq!((p.event.object, p.event.action_name.as_str(), p.event.pc), (a.data, "ask", 8));
    assert_eq!(val(Num { bits: p.time.key }), 3.5);
    let h = game.totem.objects[a.data].event.expect("the handle");
    assert_eq!((h.0, h.1), (p.time, p.id));
    assert_eq!(val(Num { bits: game.totem.event_queue.now().key }), 2.0);
    let after = (game.totem.objects[a.data].state_name.clone(), game.totem.objects[a.data].data.len());
    assert_eq!(before, after);
    // a second wait takes the place of the first
    assert_eq!(wait(&mut game.totem, &host, a.data, s("ask"), 0, &Field::Num(num(0.0))), Ok(()));
    assert_eq!(game.totem.event_queue.len(), 1);
    assert_eq!(game.totem.event_queue.pending[0].event.pc, 1);
    assert_eq!(
        wait(&mut game.totem, &host, a.data, s("ask"), 0, &Field::TRef(0)),
        Err(Fault::TypeMismatch)
    );
    assert_eq!(
        wait(&mut game.totem, &host, a.data, s("ask"), 0, &Field::Num(num(-1.0))),
        Err(Fault::TypeMismatch)
    );
    assert_eq!(game.totem.event_queue.len(), 1);
}

#[test]
fn wait_behind_a_return_is_begun() {
    let types = one_type(vec![
        ("init", vec![], vec![state("Made", &[])]),
        (
            "later",
            vec!["n"],
            vec![
                Statement::Return(vec![var("n")]),
                Statement::Wait(konst(4.0)),
                Statement::CancelWait,
                state("Woke", &[]),
            ],
        ),
        ("plain", vec!["n"], vec![Statement::Return(vec![var("n")]), Statement::Debug(s("never"))]),
        ("bad", vec![], vec![Statement::Return(vec![]), Statement::Wait(Expression::SelfObject)]),
    ]);
    let mut host = Host { compared: 0 };
    let mut game = game(types);
    let a = game.construct(&mut host, s("A"), s("Main"), s("init"), vec![]).unwrap();
    let call = |game: &mut FlopInstance, host: &mut Host, name: &str, args: Vec<Field>| {
        execute_method(&mut game.totem, host, &game.types, game.limits, a.data, None, &s(name), args, 4)
    };
    let got = call(&mut game, &mut host, "later", vec![Field::Num(num(9.0))]).unwrap();
    assert_eq!(got.iter().map(|v| val(v.num().unwrap())).collect::<Vec<_>>(), vec![9.0]);
    assert_eq!(game.totem.event_queue.len(), 1);
    let p = &game.totem.event_queue.pending[0];
    assert_eq!((p.event.object, p.event.pc, val(Num { bits: p.time.key })), (a.data, 2, 4.0));
    assert_eq!(game.invoke_next(&mut host), Ok(true));
    assert_eq!(game.totem.objects[a.data].state_name, "Woke");

    let got = call(&mut game, &mut host, "plain", vec![Field::Num(num(3.0))]).unwrap();
    assert_eq!(got.len(), 1);
    assert!(game.totem.event_queue.is_empty() && game.totem.output.is_empty());
    assert_eq!(call(&mut game, &mut host, "bad", vec![]).err(), Some(Fault::TypeMismatch));
}

#[test]
fn expression_values_are_put_behind_those_before() {
    let mut host = Host { compared: 0 };
    let mut game = game(types_with_methods());
    let a = game.construct(&mut host, s("A"), s("Main"), s("init"), vec![]).unwrap();
    let mut vars = dict(vec![("x", Field::Num(num(5.0)))]);
    let mut result = vec![Field::TRef(3)];
    let pair = Expression::ExternCall { function_name: s("pair"), args: vec![] };
    let into = |e: &Expression, game: &mut FlopInstance, host: &mut Host, vars: &mut Dict<Field>, result: &mut Vec<Field>| {
        evaluate_expression_into(&mut game.totem, host, &game.types, game.limits, e, vars, a.data, result, 4)
    };
    assert_eq!(into(&var("x"), &mut game, &mut host, &mut vars, &mut result), Ok(()));
    assert_eq!(into(&pair, &mut game, &mut host, &mut vars, &mut result), Ok(()));
    assert_eq!(into(&var("nothing"), &mut game, &mut host, &mut vars, &mut result), Err(Fault::KeyError));
    assert_eq!(result.len(), 4);
    assert_eq!(result[0].tref(), Ok(3));
    let nums: Vec<f64> = result[1..].iter().map(|v| val(v.num().unwrap())).collect();
    assert_eq!(nums, vec![5.0, 1.0, 2.0]);
}
