use flop::ast::{
    check_algorithm, check_expression, check_statement, code_len, convert_algorithm,
    convert_simple_statement, convert_statement, convert_statements, link_blocks, Algorithm,
    CompareOp, Expression, Statement,
};
use flop::data::Num;
use flop::item::{collect, get_algorithm, get_algorithm_name, Item};
use flop::prelude::{Dict, Fault};
use flop::runtime;

fn s(text: &str) -> String {
    text.to_string()
}

fn num(x: f64) -> Num {
    Num { bits: x.to_bits() }
}

fn var(name: &str) -> Expression {
    Expression::Var(s(name))
}

fn method(names: &[&str], args: Vec<Expression>) -> Expression {
    Expression::Method { names: names.iter().map(|n| s(n)).collect(), args }
}

fn alone(e: Expression) -> Statement {
    Statement::Evaluate { expressions: vec![e], results: vec![] }
}

fn mark(text: &str) -> Statement {
    // a statement that lowers to one instruction which is easy to tell apart
    Statement::Evaluate { expressions: vec![var(text)], results: vec![s(text)] }
}

/// One word for each instruction: its kind and its offset, or the variable
/// that a marker names.
fn shape(code: &[runtime::Statement]) -> Vec<String> {
    code.iter()
        .map(|st| match st {
            runtime::Statement::Debug(t) => format!("debug {}", t),
            runtime::Statement::DebugNums(e) => format!("print {}", e.len()),
            runtime::Statement::Evaluate { results, .. } => format!("eval {}", results.join(",")),
            runtime::Statement::State(_) => s("state"),
            runtime::Statement::Wait(_) => s("wait"),
            runtime::Statement::CancelWait => s("cancel"),
            runtime::Statement::Return(_) => s("return"),
            runtime::Statement::Branch { break_offset, .. } => format!("branch {}", break_offset),
            runtime::Statement::PatternBranch { arms, default_offset, .. } => {
                let arms: Vec<String> = arms
                    .entries
                    .iter()
                    .map(|(tag, (fields, offset))| format!("{}({})>{}", tag, fields.join(","), offset))
                    .collect();
                format!("pattern {} else {}", arms.join(" "), default_offset)
            },
            runtime::Statement::Continue(back) => format!("continue {}", back),
            runtime::Statement::Jump(skip) => format!("jump {}", skip),
            runtime::Statement::GotoAlg { alg_name, .. } => format!("goto {}", alg_name),
            runtime::Statement::SetAdd { set_name, .. } => format!("add {}", set_name),
            runtime::Statement::SetRemove { set_name, .. } => format!("remove {}", set_name),
            runtime::Statement::SetIterate { break_offset, .. } => format!("iterate {}", break_offset),
            runtime::Statement::ContinueLoop => s("marker"),
        })
        .collect()
}

fn lowered(steps: Vec<Statement>) -> Vec<String> {
    assert!(steps.iter().all(check_statement));
    shape(&convert_statements(&steps))
}

#[test]
fn plain_statements_lower_one_to_one() {
    let steps = vec![
        Statement::Bang,
        Statement::State(Expression::SelfData),
        Statement::CancelWait,
        Statement::Continue,
        mark("x"),
    ];
    assert_eq!(lowered(steps), vec!["debug BANG", "state", "cancel", "marker", "eval x"]);
}

#[test]
fn while_loop_branches_past_its_return() {
    let steps = vec![Statement::WhileLoop { condition: var("c"), block: vec![mark("a"), mark("b")] }];
    assert_eq!(lowered(steps), vec!["branch 4", "eval a", "eval b", "continue 3"]);
    let empty = vec![Statement::WhileLoop { condition: var("c"), block: vec![] }];
    assert_eq!(lowered(empty), vec!["branch 2", "continue 1"]);
}

#[test]
fn if_chain_links_its_blocks() {
    let steps = vec![
        Statement::Branch {
            if_branches: vec![(var("p"), vec![mark("a")]), (var("q"), vec![mark("b"), mark("c")])],
            else_branch: vec![mark("d")],
        },
        mark("after"),
    ];
    assert_eq!(
        lowered(steps),
        vec![
            "branch 3", "eval a", "jump 7", // to 9
            "branch 4", "eval b", "eval c", "jump 3", // to 9
            "eval d", "jump 1", // to 9, behind the chain
            "eval after",
        ]
    );
    let bare = vec![Statement::Branch { if_branches: vec![], else_branch: vec![] }];
    assert_eq!(lowered(bare), vec!["jump 1"]);
}

#[test]
fn match_records_fields_and_offsets() {
    let steps = vec![Statement::Match {
        data: var("r"),
        arms: vec![
            (s("Some"), vec![s("x")], vec![mark("a"), mark("b")]),
            (s("None"), vec![], vec![]),
        ],
        def: vec![mark("d")],
    }];
    assert_eq!(
        lowered(steps),
        vec![
            "pattern Some(x)>1 None()>4 else 5",
            "eval a", "eval b", "jump 4", // to 7
            "jump 3", // to 7
            "eval d", "jump 1", // to 7
        ]
    );
}

#[test]
fn match_keeps_the_last_arm_of_a_tag() {
    let steps = vec![Statement::Match {
        data: var("r"),
        arms: vec![(s("A"), vec![s("x")], vec![mark("a")]), (s("A"), vec![s("y")], vec![mark("b")])],
        def: vec![],
    }];
    assert_eq!(
        lowered(steps),
        vec!["pattern A(y)>3 else 5", "eval a", "jump 4", "eval b", "jump 2", "jump 1"]
    );
}

#[test]
fn nested_blocks_keep_relative_offsets() {
    let inner = Statement::WhileLoop { condition: var("c"), block: vec![mark("a")] };
    let steps = vec![
        mark("before"),
        Statement::Branch { if_branches: vec![(var("p"), vec![inner])], else_branch: vec![] },
    ];
    assert_eq!(
        lowered(steps),
        vec!["eval before", "branch 5", "branch 3", "eval a", "continue 2", "jump 2", "jump 1"]
    );
}

#[test]
fn built_ins_become_their_own_instructions() {
    let steps = vec![
        alone(method(&["print"], vec![var("a"), var("b")])),
        alone(method(&["wait"], vec![Expression::Const(num(1.5))])),
        alone(method(&["friends", "add"], vec![var("x")])),
        alone(method(&["friends", "remove"], vec![var("x")])),
        alone(method(&["other", "poke"], vec![var("x")])),
    ];
    assert_eq!(lowered(steps), vec!["print 2", "wait", "add friends", "remove friends", "eval "]);
}

#[test]
fn simple_statement_is_none_for_other_calls() {
    assert!(convert_simple_statement(&vec![s("a"), s("b")], &vec![]).is_none());
    assert!(convert_simple_statement(&vec![s("a"), s("b"), s("c")], &vec![]).is_none());
    assert!(matches!(
        convert_simple_statement(&vec![s("print")], &vec![]),
        Some(runtime::Statement::DebugNums(e)) if e.is_empty()
    ));
}

fn lowered_expr(e: Expression) -> runtime::Expression {
    assert!(check_expression(&e));
    let mut code = Vec::new();
    convert_statement(&Statement::State(e), &mut code);
    match code.pop() {
        Some(runtime::Statement::State(e)) => e,
        other => panic!("unexpected {:?}", other),
    }
}

#[test]
fn calls_lower_by_the_number_of_their_names() {
    assert!(matches!(
        lowered_expr(method(&["Walker"], vec![var("o")])),
        runtime::Expression::VirtualizeObject { interface_name, .. } if interface_name == "Walker"
    ));
    assert!(matches!(lowered_expr(method(&["Set", "new"], vec![])), runtime::Expression::InitSet));
    assert!(matches!(
        lowered_expr(method(&["game", "roll"], vec![var("a")])),
        runtime::Expression::ExternCall { function_name, args } if function_name == "roll" && args.len() == 1
    ));
    assert!(matches!(
        lowered_expr(method(&["dog", "bark"], vec![])),
        runtime::Expression::ExecObject { object_name, action_name, .. }
            if object_name == "dog" && action_name == "bark"
    ));
    assert!(matches!(
        lowered_expr(method(&["Dog", "Pet", "born"], vec![var("a"), var("b")])),
        runtime::Expression::InitObject { object_type, table_name, init_name, args }
            if object_type == "Dog" && table_name == "Pet" && init_name == "born" && args.len() == 2
    ));
}

#[test]
fn operators_and_records_lower_in_place() {
    let sum = Expression::Add(Box::new(var("a")), Box::new(Expression::Const(num(2.0))));
    assert!(matches!(
        lowered_expr(sum),
        runtime::Expression::Add(l, r)
            if matches!(*l, runtime::Expression::Var(ref n) if n == "a")
                && matches!(*r, runtime::Expression::Const(x) if x == num(2.0))
    ));
    let chain = Expression::Comparison(
        Box::new(var("a")),
        vec![(CompareOp::Less, var("b")), (CompareOp::LessEq, var("c"))],
    );
    assert!(matches!(
        lowered_expr(chain),
        runtime::Expression::Comparison(_, links)
            if links.len() == 2 && links[0].0 == CompareOp::Less && links[1].0 == CompareOp::LessEq
    ));
    let record = Expression::Data {
        name: s("P"),
        fields: vec![(s("x"), var("a")), (s("y"), var("b")), (s("x"), var("c"))],
    };
    match lowered_expr(record) {
        runtime::Expression::Data { name, fields } => {
            assert_eq!(name, "P");
            let keys: Vec<&str> = fields.entries.iter().map(|(k, _)| k.as_str()).collect();
            assert_eq!(keys, vec!["x", "y"]);
            assert!(matches!(&fields.entries[0].1, runtime::Expression::Var(n) if n == "c"));
        },
        other => panic!("unexpected {:?}", other),
    }
}

#[test]
fn checker_refuses_what_cannot_be_lowered() {
    assert!(!check_expression(&method(&[], vec![])));
    assert!(!check_expression(&method(&["a", "b", "c", "d"], vec![])));
    assert!(!check_expression(&method(&["Walker"], vec![])));
    assert!(!check_expression(&method(&["Set", "new"], vec![var("x")])));
    assert!(check_expression(&method(&["Set", "old"], vec![var("x")])));
    let nested = Expression::Mul(Box::new(var("a")), Box::new(method(&["Walker"], vec![])));
    assert!(!check_expression(&nested));
    assert!(!check_statement(&alone(method(&["wait"], vec![]))));
    assert!(!check_statement(&alone(method(&["s", "add"], vec![var("a"), var("b")]))));
    assert!(check_statement(&alone(method(&["print"], vec![]))));
    assert!(!check_statement(&Statement::Evaluate { expressions: vec![], results: vec![] }));
    assert!(!check_statement(&Statement::Evaluate {
        expressions: vec![var("a"), var("b")],
        results: vec![],
    }));
    assert!(check_statement(&Statement::Evaluate {
        expressions: vec![var("a"), var("b")],
        results: vec![s("x")],
    }));
    let bad_inside = Statement::WhileLoop {
        condition: var("c"),
        block: vec![alone(method(&["wait"], vec![]))],
    };
    assert!(!check_statement(&bad_inside));
    assert!(!check_algorithm(&Algorithm { param_list: vec![], steps: vec![bad_inside] }));
}

#[test]
fn code_len_is_the_length_of_the_code() {
    let steps = vec![
        Statement::Branch {
            if_branches: vec![(var("p"), vec![mark("a")]), (var("q"), vec![mark("b"), mark("c")])],
            else_branch: vec![mark("d")],
        },
        Statement::Match {
            data: var("r"),
            arms: vec![(s("A"), vec![], vec![mark("a")])],
            def: vec![],
        },
        Statement::WhileLoop { condition: var("c"), block: vec![] },
    ];
    assert_eq!(code_len(&steps), Some(9 + 4 + 2));
    assert_eq!(convert_statements(&steps).len(), 15);
}

#[test]
fn link_blocks_gives_code_and_starts() {
    let block = |n: usize| (0..n).map(|_| runtime::Statement::CancelWait).collect::<Vec<_>>();
    let (code, offsets) = link_blocks(vec![block(2), block(0), block(1)], 1);
    assert_eq!(offsets, vec![1, 4, 5, 7]);
    assert_eq!(shape(&code), vec!["cancel", "cancel", "jump 4", "jump 3", "cancel", "jump 1"]);
    let (code, offsets) = link_blocks(vec![], 0);
    assert!(code.is_empty());
    assert_eq!(offsets, vec![0]);
}

#[test]
fn algorithm_keeps_its_parameters() {
    let alg = Algorithm { param_list: vec![s("a"), s("b")], steps: vec![mark("x")] };
    assert!(check_algorithm(&alg));
    let lowered = convert_algorithm(alg);
    assert_eq!(lowered.param_list, vec![s("a"), s("b")]);
    assert_eq!(shape(&lowered.steps), vec!["eval x"]);
}

fn declarations(binding: &str, role_name: &str) -> Vec<(String, Item)> {
    let mut implementors = Dict::new();
    implementors.insert(s("go"), s(binding));
    vec![
        (s("Mover"), Item::Role(Dict::new())),
        (s("walk"), Item::Function(Algorithm { param_list: vec![s("n")], steps: vec![mark("x")] })),
        (s("born"), Item::Constructor(Algorithm { param_list: vec![], steps: vec![] })),
        (s("Legs"), Item::Interface { object_type: None, role_name: s(role_name), implementors }),
    ]
}

#[test]
fn collect_links_a_type() {
    let t = collect(declarations("walk", "Mover")).expect("links");
    let mut types = Dict::new();
    types.insert(s("Dog"), t);
    assert_eq!(get_algorithm_name(&types, &s("Dog"), &s("Legs"), &s("go")), Ok(&s("walk")));
    let alg = get_algorithm(&types, &s("Dog"), &s("walk")).expect("declared");
    assert_eq!(alg.param_list, vec![s("n")]);
    assert!(get_algorithm(&types, &s("Dog"), &s("born")).is_ok());
    assert_eq!(get_algorithm(&types, &s("Dog"), &s("run")).err(), Some(Fault::KeyError));
    assert_eq!(get_algorithm(&types, &s("Cat"), &s("walk")).err(), Some(Fault::KeyError));
    assert_eq!(
        get_algorithm_name(&types, &s("Dog"), &s("Legs"), &s("stop")),
        Err(Fault::KeyError)
    );
    assert_eq!(
        get_algorithm_name(&types, &s("Dog"), &s("Wings"), &s("go")),
        Err(Fault::KeyError)
    );
    assert_eq!(
        get_algorithm_name(&types, &s("Cat"), &s("Legs"), &s("go")),
        Err(Fault::KeyError)
    );
}

#[test]
fn collect_refuses_dangling_references() {
    assert_eq!(collect(declarations("fly", "Mover")).err(), Some(Fault::LoadError));
    assert_eq!(collect(declarations("walk", "Flyer")).err(), Some(Fault::LoadError));
    let mut bad = declarations("walk", "Mover");
    bad.push((
        s("broken"),
        Item::Function(Algorithm {
            param_list: vec![],
            steps: vec![alone(method(&["wait"], vec![]))],
        }),
    ));
    assert_eq!(collect(bad).err(), Some(Fault::LoadError));
    assert!(collect(vec![]).is_ok());
}

#[test]
fn every_offset_of_lowered_code_stays_in_the_code() {
    let inner = Statement::Match {
        data: var("r"),
        arms: vec![
            (s("A"), vec![s("x")], vec![Statement::WhileLoop { condition: var("c"), block: vec![mark("a")] }]),
            (s("B"), vec![], vec![]),
        ],
        def: vec![Statement::Branch { if_branches: vec![(var("p"), vec![])], else_branch: vec![mark("e")] }],
    };
    let steps = vec![
        Statement::WhileLoop {
            condition: var("c"),
            block: vec![
                Statement::Branch {
                    if_branches: vec![(var("p"), vec![inner]), (var("q"), vec![mark("b")])],
                    else_branch: vec![],
                },
                mark("z"),
            ],
        },
        mark("end"),
    ];
    assert!(steps.iter().all(check_statement));
    let code = convert_statements(&steps);
    assert_eq!(Some(code.len()), code_len(&steps));
    let len = code.len() as i128;
    for (at, instr) in code.iter().enumerate() {
        let at = at as i128;
        let targets: Vec<i128> = match instr {
            runtime::Statement::Branch { break_offset, .. } => vec![at + *break_offset as i128],
            runtime::Statement::PatternBranch { arms, default_offset, .. } => arms
                .entries
                .iter()
                .map(|(_, (_, offset))| at + *offset as i128)
                .chain(std::iter::once(at + *default_offset as i128))
                .collect(),
            runtime::Statement::Continue(back) => vec![at - *back as i128],
            runtime::Statement::Jump(skip) => vec![at + *skip as i128],
            _ => vec![],
        };
        for target in targets {
            assert!(0 <= target && target <= len, "offset at {} leads to {}", at, target);
        }
    }
}
