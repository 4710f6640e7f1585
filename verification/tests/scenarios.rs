use flop::algorithm::{execute_method, execute_resume};
use flop::ast;
use flop::ast::CompareOp;
use flop::data::{Field, Num, Object, ObjectRef, Output};
use flop::event::Time;
use flop::instance::{Flop, FlopInstance};
use flop::item::{collect, Interface, Item, ObjectType};
use flop::prelude::{Dict, Fault};
use flop::runtime::{Algorithm, ArithOp, Expression, Statement, TablePath};
use flop::semantics::Limits;

struct Host {
    calls: Vec<String>,
}

fn num(x: f64) -> Num {
    Num { bits: x.to_bits() }
}

fn val(x: Num) -> f64 {
    f64::from_bits(x.bits)
}

impl Flop for Host {
    fn arith(&self, op: ArithOp, x: Num, y: Num) -> Num {
        let (a, b) = (val(x), val(y));
        num(match op {
            ArithOp::Add => a + b,
            ArithOp::Sub => a - b,
            ArithOp::Mul => a * b,
            ArithOp::Div => a / b,
            ArithOp::Pow => a.powf(b),
        })
    }

    fn compare(&self, op: CompareOp, x: Num, y: Num) -> bool {
        let (a, b) = (val(x), val(y));
        match op {
            CompareOp::Equals => a == b,
            CompareOp::NEquals => a != b,
            CompareOp::LessEq => a <= b,
            CompareOp::GreaterEq => a >= b,
            CompareOp::Greater => a > b,
            CompareOp::Less => a < b,
        }
    }

    fn advance(&self, now: Time, by: Num) -> Option<Time> {
        let d = val(by);
        if d.is_finite() && d >= 0.0 {
            Some(Time { key: (f64::from_bits(now.key) + d).to_bits() })
        } else {
            None
        }
    }

    fn extern_call(&mut self, func_name: &String, args: Vec<Field>) -> Vec<Field> {
        self.calls.push(func_name.clone());
        if func_name == "double" {
            match &args[0] {
                Field::Num(x) => vec![Field::Num(num(val(*x) * 2.0))],
                _ => vec![],
            }
        } else {
            vec![]
        }
    }
}

fn s(text: &str) -> String {
    text.to_string()
}

fn limits() -> Limits {
    Limits { steps: 10_000, depth: 64 }
}

fn dict<T>(entries: Vec<(&str, T)>) -> Dict<T> {
    let mut d = Dict::new();
    for (k, v) in entries {
        d.insert(s(k), v);
    }
    d
}

fn call(names: &[&str], args: Vec<ast::Expression>) -> ast::Statement {
    ast::Statement::Evaluate {
        expressions: vec![ast::Expression::Method {
            names: names.iter().map(|n| s(n)).collect(),
            args,
        }],
        results: vec![],
    }
}

fn var(name: &str) -> ast::Expression {
    ast::Expression::Var(s(name))
}

fn konst(x: f64) -> ast::Expression {
    ast::Expression::Const(num(x))
}

fn record(tag: &str, fields: Vec<(&str, ast::Expression)>) -> ast::Expression {
    ast::Expression::Data {
        name: s(tag),
        fields: fields.into_iter().map(|(k, v)| (s(k), v)).collect(),
    }
}

fn assign(name: &str, e: ast::Expression) -> ast::Statement {
    ast::Statement::Evaluate { expressions: vec![e], results: vec![s(name)] }
}

fn one_type(name: &str, items: Vec<(String, Item)>) -> Dict<ObjectType> {
    let t = collect(items).expect("the type links");
    dict(vec![(name, t)])
}

fn main_interface(methods: &[&str]) -> (String, Item) {
    (
        s("Main"),
        Item::Interface {
            object_type: None,
            role_name: s("Actor"),
            implementors: dict(methods.iter().map(|m| (*m, s(m))).collect()),
        },
    )
}

fn role() -> (String, Item) {
    (s("Actor"), Item::Role(Dict::new()))
}

fn counter_types() -> Dict<ObjectType> {
    let init = ast::Algorithm {
        param_list: vec![],
        steps: vec![ast::Statement::State(record("Resting", vec![("n", konst(0.0))]))],
    };
    let tick = ast::Algorithm {
        param_list: vec![],
        steps: vec![
            ast::Statement::Match {
                data: ast::Expression::SelfData,
                arms: vec![(s("Resting"), vec![s("n")], vec![])],
                def: vec![],
            },
            ast::Statement::CancelWait,
            ast::Statement::WhileLoop {
                condition: ast::Expression::Comparison(
                    Box::new(var("n")),
                    vec![(CompareOp::Less, konst(5.0))],
                ),
                block: vec![
                    assign("n", ast::Expression::Add(Box::new(var("n")), Box::new(konst(1.0)))),
                    ast::Statement::State(record("Resting", vec![("n", var("n"))])),
                    call(&["wait"], vec![konst(1.0)]),
                ],
            },
            ast::Statement::State(record("Resting", vec![("n", var("n"))])),
        ],
    };
    one_type(
        "Counter",
        vec![
            role(),
            (s("init"), Item::Constructor(init)),
            (s("tick"), Item::Function(tick)),
            main_interface(&["init", "tick"]),
        ],
    )
}

fn state_of(game: &FlopInstance, object: Object) -> (String, Vec<(String, f64)>) {
    let o = &game.totem.objects[object];
    let fields = o
        .data
        .entries
        .iter()
        .map(|(k, v)| {
            (
                k.clone(),
                match v {
                    Field::Num(x) => val(*x),
                    _ => f64::NAN,
                },
            )
        })
        .collect();
    (o.state_name.clone(), fields)
}

#[test]
fn counter_ticks_five_times() {
    let mut host = Host { calls: vec![] };
    let mut game = FlopInstance::new(Time { key: 0f64.to_bits() }, counter_types(), limits());
    let counter = game
        .construct(&mut host, s("Counter"), s("Main"), s("init"), vec![])
        .expect("constructs");
    assert_eq!(counter.table, "Main");
    assert_eq!(state_of(&game, counter.data), (s("Resting"), vec![(s("n"), 0.0)]));
    assert!(game.totem.event_queue.is_empty());

    execute_method(
        &mut game.totem,
        &mut host,
        &game.types,
        game.limits,
        counter.data,
        Some(&counter.table),
        &s("tick"),
        vec![],
        game.limits.depth,
    )
    .expect("ticks");
    assert_eq!(game.totem.event_queue.len(), 1);
    assert_eq!(state_of(&game, counter.data), (s("Resting"), vec![(s("n"), 1.0)]));

    let mut fired = 0;
    for turn in 1..=5 {
        assert_eq!(game.invoke_next(&mut host), Ok(true));
        fired += 1;
        assert_eq!(f64::from_bits(game.totem.event_queue.now().key), turn as f64);
    }
    assert_eq!(fired, 5);
    assert_eq!(state_of(&game, counter.data), (s("Resting"), vec![(s("n"), 5.0)]));
    assert_eq!(f64::from_bits(game.totem.event_queue.now().key), 5.0);
    assert_eq!(game.totem.event_queue.len(), 0);
    assert!(game.totem.objects[counter.data].event.is_none());
    assert_eq!(game.invoke_next(&mut host), Ok(false));
}

fn state(tag: &str) -> Statement {
    Statement::State(Expression::Data { name: s(tag), fields: Dict::new() })
}

fn bytecode_type(algs: Vec<(&str, Vec<Statement>)>) -> ObjectType {
    let names: Vec<&str> = algs.iter().map(|(n, _)| *n).collect();
    ObjectType {
        interfaces: dict(vec![(
            "Main",
            Interface { implementors: dict(names.iter().map(|n| (*n, s(n))).collect()) },
        )]),
        algorithms: dict(
            algs.into_iter()
                .map(|(n, steps)| (n, Algorithm { param_list: vec![], steps }))
                .collect(),
        ),
    }
}

fn goto(object_type: &str, alg: &str) -> Statement {
    Statement::GotoAlg {
        table: TablePath::Static(s(object_type), s("Main")),
        alg_name: s(alg),
        args: vec![],
    }
}

#[test]
fn tail_chain_completes_in_one_call() {
    let types = dict(vec![
        ("A", bytecode_type(vec![("init", vec![state("AtRest")]), ("foo", vec![goto("B", "bar")])])),
        ("B", bytecode_type(vec![("bar", vec![state("BAtRest"), goto("C", "baz")])])),
        ("C", bytecode_type(vec![("baz", vec![state("CAtRest")])])),
    ]);
    let mut host = Host { calls: vec![] };
    let mut game = FlopInstance::new(Time { key: 0 }, types, limits());
    let a = game.construct(&mut host, s("A"), s("Main"), s("init"), vec![]).expect("constructs");
    let r = execute_method(
        &mut game.totem,
        &mut host,
        &game.types,
        game.limits,
        a.data,
        Some(&a.table),
        &s("foo"),
        vec![],
        game.limits.depth,
    );
    assert!(r.is_ok());
    assert_eq!(game.totem.objects.len(), 3);
    let names: Vec<(&str, &str)> = game
        .totem
        .objects
        .iter()
        .map(|o| (o.object_type.as_str(), o.state_name.as_str()))
        .collect();
    assert_eq!(names, vec![("A", "AtRest"), ("B", "BAtRest"), ("C", "CAtRest")]);
    assert!(game.totem.event_queue.is_empty());
    assert!(game.totem.output.is_empty());
}

#[test]
fn tail_chain_needs_no_nesting() {
    // Each link constructs the next object of the same type and hands over:
    // the chain is as long as the hop limit lets it be, at nesting depth 0.
    let types = dict(vec![(
        "Link",
        bytecode_type(vec![
            ("init", vec![state("First")]),
            ("next", vec![state("Linked"), goto("Link", "next")]),
            ("start", vec![goto("Link", "next")]),
        ]),
    )]);
    let mut host = Host { calls: vec![] };
    let mut game = FlopInstance::new(Time { key: 0 }, types, Limits { steps: 500, depth: 0 });
    let a = game.construct(&mut host, s("Link"), s("Main"), s("init"), vec![]).expect("constructs");
    let r = start_chain(&mut game, &mut host, a.data);
    assert_eq!(r, Err(Fault::LimitReached));
    assert_eq!(game.totem.objects.len(), 501);
}

fn start_chain(game: &mut FlopInstance, host: &mut Host, object: Object) -> Result<(), Fault> {
    flop::algorithm::execute_action(
        &mut game.totem,
        host,
        &game.types,
        game.limits,
        object,
        s("start"),
        Dict::new(),
        0,
        true,
        game.limits.steps,
        game.limits.depth,
    )
    .map(|_| ())
}

fn truth(tag: &str) -> Field {
    Field::Data(s(tag), Dict::new())
}

fn chooser_types() -> Dict<ObjectType> {
    let choose = ast::Algorithm {
        param_list: vec![s("x")],
        steps: vec![
            ast::Statement::Match {
                data: var("x"),
                arms: vec![
                    (s("True"), vec![], vec![assign("r", konst(1.0))]),
                    (s("False"), vec![], vec![assign("r", konst(2.0))]),
                ],
                def: vec![assign("r", konst(3.0))],
            },
            ast::Statement::State(record("Chose", vec![("r", var("r"))])),
        ],
    };
    one_type(
        "Chooser",
        vec![role(), (s("choose"), Item::Constructor(choose)), main_interface(&["choose"])],
    )
}

fn chosen(x: Field) -> f64 {
    let mut host = Host { calls: vec![] };
    let mut game = FlopInstance::new(Time { key: 0 }, chooser_types(), limits());
    let c = game
        .construct(&mut host, s("Chooser"), s("Main"), s("choose"), vec![x])
        .expect("constructs");
    let (name, fields) = state_of(&game, c.data);
    assert_eq!(name, "Chose");
    fields[0].1
}

#[test]
fn match_dispatches_on_the_tag() {
    assert_eq!(chosen(truth("True")), 1.0);
    assert_eq!(chosen(truth("False")), 2.0);
}

#[test]
fn match_falls_to_the_default_arm() {
    assert_eq!(chosen(truth("Maybe")), 3.0);
}

#[test]
fn match_on_a_number_is_a_type_mismatch() {
    let mut host = Host { calls: vec![] };
    let mut game = FlopInstance::new(Time { key: 0 }, chooser_types(), limits());
    let r = game.construct(&mut host, s("Chooser"), s("Main"), s("choose"), vec![Field::Num(num(1.0))]);
    assert_eq!(r.map(|x| x.data), Err(Fault::TypeMismatch));
}

#[test]
fn missing_table_entry_is_a_key_error() {
    let mut host = Host { calls: vec![] };
    let mut game = FlopInstance::new(Time { key: 0 }, chooser_types(), limits());
    let r = game.construct(&mut host, s("Chooser"), s("Main"), s("nothing"), vec![]);
    assert_eq!(r.map(|x| x.data), Err(Fault::KeyError));
    assert_eq!(game.totem.objects.len(), 0);
}

#[test]
fn exit_without_state_is_a_protocol_violation() {
    let types = dict(vec![("A", bytecode_type(vec![("init", vec![Statement::Debug(s("hello"))])]))]);
    let mut host = Host { calls: vec![] };
    let mut game = FlopInstance::new(Time { key: 0 }, types, limits());
    let r = game.construct(&mut host, s("A"), s("Main"), s("init"), vec![]);
    assert_eq!(r.map(|x| x.data), Err(Fault::ProtocolViolation));
    assert!(matches!(&game.totem.output[0], Output::Text(t) if t == "hello"));
}

#[test]
fn state_twice_is_a_protocol_violation() {
    let types = dict(vec![(
        "A",
        bytecode_type(vec![
            ("twice", vec![state("One"), state("Two")]),
            ("cancelled", vec![state("One"), Statement::CancelWait, state("Two")]),
        ]),
    )]);
    let mut host = Host { calls: vec![] };
    let mut game = FlopInstance::new(Time { key: 0 }, types, limits());
    let r = game.construct(&mut host, s("A"), s("Main"), s("twice"), vec![]);
    assert_eq!(r.map(|x| x.data), Err(Fault::ProtocolViolation));
    let ok = game.construct(&mut host, s("A"), s("Main"), s("cancelled"), vec![]).expect("runs");
    assert_eq!(game.totem.objects[ok.data].state_name, "Two");
}

#[test]
fn wait_then_cancel_leaves_nothing_to_fire() {
    let wait = Statement::Wait(Expression::Const(num(2.5)));
    let types = dict(vec![(
        "A",
        bytecode_type(vec![
            ("init", vec![state("Waiting"), wait, state("Woke")]),
            ("stop", vec![Statement::CancelWait, state("Stopped")]),
        ]),
    )]);
    let mut host = Host { calls: vec![] };
    let mut game = FlopInstance::new(Time { key: 1f64.to_bits() }, types, limits());
    let a = game.construct(&mut host, s("A"), s("Main"), s("init"), vec![]).expect("constructs");
    assert_eq!(game.totem.event_queue.len(), 1);
    let pending = &game.totem.event_queue.pending[0];
    assert_eq!(f64::from_bits(pending.time.key), 3.5);
    assert_eq!((pending.event.object, pending.event.pc), (a.data, 2));
    assert_eq!(pending.event.action_name, "init");
    let handle = game.totem.objects[a.data].event.expect("keeps the handle");
    assert_eq!((handle.0, handle.1), (pending.time, pending.id));

    execute_method(
        &mut game.totem,
        &mut host,
        &game.types,
        game.limits,
        a.data,
        Some(&a.table),
        &s("stop"),
        vec![],
        4,
    )
    .expect("stops");
    assert_eq!(game.totem.event_queue.len(), 0);
    assert!(game.totem.objects[a.data].event.is_none());
    assert_eq!(game.invoke_next(&mut host), Ok(false));
    assert_eq!(game.totem.objects[a.data].state_name, "Stopped");
    assert_eq!(f64::from_bits(game.totem.event_queue.now().key), 1.0);
}

#[test]
fn wait_resumes_with_the_kept_bundle() {
    let wait = Statement::Wait(Expression::Const(num(1.0)));
    let keep = Statement::State(Expression::Data {
        name: s("Keeping"),
        fields: dict(vec![("k", Expression::Const(num(7.0)))]),
    });
    let after = Statement::State(Expression::Data {
        name: s("After"),
        fields: dict(vec![(
            "k",
            Expression::Mul(
                Box::new(Expression::Var(s("k"))),
                Box::new(Expression::Const(num(3.0))),
            ),
        )]),
    });
    let types = dict(vec![("A", bytecode_type(vec![("init", vec![keep, wait, after])]))]);
    let mut host = Host { calls: vec![] };
    let mut game = FlopInstance::new(Time { key: 0 }, types, limits());
    let a = game.construct(&mut host, s("A"), s("Main"), s("init"), vec![]).expect("constructs");
    assert_eq!(state_of(&game, a.data), (s("Keeping"), vec![(s("k"), 7.0)]));
    assert_eq!(game.invoke_next(&mut host), Ok(true));
    assert_eq!(state_of(&game, a.data), (s("After"), vec![(s("k"), 21.0)]));
}

#[test]
fn negative_wait_is_a_type_mismatch() {
    let wait = Statement::Wait(Expression::Const(num(-1.0)));
    let types = dict(vec![("A", bytecode_type(vec![("init", vec![state("S"), wait])]))]);
    let mut host = Host { calls: vec![] };
    let mut game = FlopInstance::new(Time { key: 0 }, types, limits());
    let r = game.construct(&mut host, s("A"), s("Main"), s("init"), vec![]);
    assert_eq!(r.map(|x| x.data), Err(Fault::TypeMismatch));
}

#[test]
fn endless_loop_reaches_the_limit() {
    let types = dict(vec![(
        "A",
        bytecode_type(vec![("init", vec![state("S"), Statement::Jump(0)])]),
    )]);
    let mut host = Host { calls: vec![] };
    let mut game = FlopInstance::new(Time { key: 0 }, types, Limits { steps: 100, depth: 4 });
    let r = game.construct(&mut host, s("A"), s("Main"), s("init"), vec![]);
    assert_eq!(r.map(|x| x.data), Err(Fault::LimitReached));
}

#[test]
fn jump_out_of_the_code_is_a_key_error() {
    for bad in [Statement::Jump(3), Statement::Jump(-2), Statement::Continue(2)] {
        let types = dict(vec![("A", bytecode_type(vec![("init", vec![state("S"), bad])]))]);
        let mut host = Host { calls: vec![] };
        let mut game = FlopInstance::new(Time { key: 0 }, types, limits());
        let r = game.construct(&mut host, s("A"), s("Main"), s("init"), vec![]);
        assert_eq!(r.map(|x| x.data), Err(Fault::KeyError));
    }
    let types = dict(vec![("A", bytecode_type(vec![("init", vec![state("S"), Statement::Jump(1)])]))]);
    let mut host = Host { calls: vec![] };
    let mut game = FlopInstance::new(Time { key: 0 }, types, limits());
    assert!(game.construct(&mut host, s("A"), s("Main"), s("init"), vec![]).is_ok());
}

#[test]
fn extern_call_goes_to_the_host() {
    let call = Statement::Evaluate {
        expressions: vec![Expression::ExternCall {
            function_name: s("double"),
            args: vec![Expression::Const(num(21.0))],
        }],
        results: vec![s("x")],
    };
    let keep = Statement::State(Expression::Data {
        name: s("Got"),
        fields: dict(vec![("x", Expression::Var(s("x")))]),
    });
    let types = dict(vec![("A", bytecode_type(vec![("init", vec![call, keep])]))]);
    let mut host = Host { calls: vec![] };
    let mut game = FlopInstance::new(Time { key: 0 }, types, limits());
    let a = game.construct(&mut host, s("A"), s("Main"), s("init"), vec![]).expect("constructs");
    assert_eq!(host.calls, vec![s("double")]);
    assert_eq!(state_of(&game, a.data), (s("Got"), vec![(s("x"), 42.0)]));
}

#[test]
fn set_iterate_runs_the_body_for_each_member() {
    // members = Set.new(); members.add(Main(self)); members.add(Main(self));
    // for m in members { count = count + 1; continue }
    let me = Expression::VirtualizeObject {
        interface_name: s("Main"),
        object: Box::new(Expression::SelfObject),
    };
    let other = Expression::InitObject {
        object_type: s("A"),
        table_name: s("Main"),
        init_name: s("plain"),
        args: vec![],
    };
    let add = |e: Expression| Statement::SetAdd { set_name: s("members"), to_add: e };
    let steps = vec![
        state("Counting"),
        Statement::Evaluate { expressions: vec![Expression::InitSet], results: vec![s("members")] },
        Statement::Evaluate {
            expressions: vec![Expression::Const(num(0.0))],
            results: vec![s("count")],
        },
        add(me),
        add(Expression::VirtualizeObject {
            interface_name: s("Other"),
            object: Box::new(Expression::SelfObject),
        }),
        add(other),
        Statement::SetIterate { var_name: s("m"), set_name: s("members"), break_offset: 2 },
        Statement::Evaluate {
            expressions: vec![Expression::Add(
                Box::new(Expression::Var(s("count"))),
                Box::new(Expression::Const(num(1.0))),
            )],
            results: vec![s("count")],
        },
        Statement::ContinueLoop,
        Statement::DebugNums(vec![Expression::Var(s("count"))]),
    ];
    let types = dict(vec![(
        "A",
        bytecode_type(vec![("init", steps), ("plain", vec![state("Plain")])]),
    )]);
    let mut host = Host { calls: vec![] };
    let mut game = FlopInstance::new(Time { key: 0 }, types, limits());
    game.construct(&mut host, s("A"), s("Main"), s("init"), vec![]).expect("constructs");
    match &game.totem.output[0] {
        Output::Nums(nums) => assert_eq!(nums.iter().map(|x| val(*x)).collect::<Vec<_>>(), vec![2.0]),
        other => panic!("unexpected output {:?}", other),
    }
}

#[test]
fn loop_body_that_returns_is_a_protocol_violation() {
    let steps = vec![
        state("S"),
        Statement::Evaluate { expressions: vec![Expression::InitSet], results: vec![s("members")] },
        Statement::SetAdd {
            set_name: s("members"),
            to_add: Expression::VirtualizeObject {
                interface_name: s("Main"),
                object: Box::new(Expression::SelfObject),
            },
        },
        Statement::SetIterate { var_name: s("m"), set_name: s("members"), break_offset: 2 },
        Statement::Return(vec![]),
        Statement::ContinueLoop,
    ];
    let types = dict(vec![("A", bytecode_type(vec![("init", steps)]))]);
    let mut host = Host { calls: vec![] };
    let mut game = FlopInstance::new(Time { key: 0 }, types, limits());
    let r = game.construct(&mut host, s("A"), s("Main"), s("init"), vec![]);
    assert_eq!(r.map(|x| x.data), Err(Fault::ProtocolViolation));
}

#[test]
fn nested_calls_use_up_the_depth() {
    // `deep` calls itself on its own object through an expression: each call
    // nests in the one before, until the depth is used up.
    let call = Statement::Evaluate {
        expressions: vec![Expression::ExecObject {
            object_name: s("me"),
            action_name: s("deep"),
            args: vec![],
        }],
        results: vec![],
    };
    let bind = Statement::Evaluate {
        expressions: vec![Expression::SelfObject],
        results: vec![s("me")],
    };
    let types = dict(vec![(
        "A",
        bytecode_type(vec![("init", vec![state("S")]), ("deep", vec![bind, call])]),
    )]);
    let mut host = Host { calls: vec![] };
    let mut game = FlopInstance::new(Time { key: 0 }, types, Limits { steps: 100, depth: 8 });
    let a = game.construct(&mut host, s("A"), s("Main"), s("init"), vec![]).expect("constructs");
    let r = execute_method(
        &mut game.totem,
        &mut host,
        &game.types,
        game.limits,
        a.data,
        None,
        &s("deep"),
        vec![],
        game.limits.depth,
    );
    assert_eq!(r.map(|v| v.len()), Err(Fault::LimitReached));
}

#[test]
fn resume_of_a_missing_object_is_a_key_error() {
    let mut host = Host { calls: vec![] };
    let mut game = FlopInstance::new(Time { key: 0 }, chooser_types(), limits());
    let r = execute_resume(&mut game.totem, &mut host, &game.types, game.limits, 3, s("choose"), 0);
    assert_eq!(r.map(|v| v.len()), Err(Fault::KeyError));
}

#[test]
fn run_constructs_the_root_and_pumps() {
    let mut host = Host { calls: vec![] };
    let wait = Statement::Wait(Expression::Const(num(1.0)));
    let types = dict(vec![(
        "Root",
        bytecode_type(vec![("init", vec![state("A"), wait, state("B"), Statement::Wait(Expression::Const(num(1.0))), state("C")])]),
    )]);
    let mut game = FlopInstance::new(Time { key: 0 }, types, limits());
    let fired = FlopInstance::run(&mut game, &mut host, s("Root"), s("Main"), s("init"), 10);
    assert_eq!(fired, Ok(2));
    assert_eq!(game.totem.objects[0].state_name, "C");
    let _ = ObjectRef { table: s("Main"), data: 0 };
}

fn sum_types() -> Dict<ObjectType> {
    // total = 0; i = 0
    // while i < n { i = i + 1; if i == 3 { } else if i == 5 { total = total + 100 } else { total = total + i } }
    let less = |a: ast::Expression, op: CompareOp, b: ast::Expression| {
        ast::Expression::Comparison(Box::new(a), vec![(op, b)])
    };
    let add = |a: ast::Expression, b: ast::Expression| ast::Expression::Add(Box::new(a), Box::new(b));
    let sum = ast::Algorithm {
        param_list: vec![s("n")],
        steps: vec![
            ast::Statement::Evaluate {
                expressions: vec![konst(0.0), konst(0.0)],
                results: vec![s("total"), s("i")],
            },
            ast::Statement::WhileLoop {
                condition: less(var("i"), CompareOp::Less, var("n")),
                block: vec![
                    assign("i", add(var("i"), konst(1.0))),
                    ast::Statement::Branch {
                        if_branches: vec![
                            (less(var("i"), CompareOp::Equals, konst(3.0)), vec![]),
                            (
                                less(var("i"), CompareOp::Equals, konst(5.0)),
                                vec![assign("total", add(var("total"), konst(100.0)))],
                            ),
                        ],
                        else_branch: vec![assign("total", add(var("total"), var("i")))],
                    },
                ],
            },
            ast::Statement::State(record("Sum", vec![("total", var("total")), ("i", var("i"))])),
        ],
    };
    one_type("Summer", vec![role(), (s("sum"), Item::Constructor(sum)), main_interface(&["sum"])])
}

#[test]
fn lowered_loops_and_chains_run_like_the_structured_form() {
    for n in 0..8 {
        let mut expected = 0.0;
        for i in 1..=n {
            if i == 3 {
            } else if i == 5 {
                expected += 100.0;
            } else {
                expected += i as f64;
            }
        }
        let mut host = Host { calls: vec![] };
        let mut game = FlopInstance::new(Time { key: 0 }, sum_types(), limits());
        let made = game
            .construct(&mut host, s("Summer"), s("Main"), s("sum"), vec![Field::Num(num(n as f64))])
            .expect("constructs");
        assert_eq!(
            state_of(&game, made.data),
            (s("Sum"), vec![(s("total"), expected), (s("i"), n as f64)])
        );
    }
}
