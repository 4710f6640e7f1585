//! The structured form of algorithms and its lowering to instructions.

use vstd::prelude::*;
use vstd::string::*;
use crate::data::{is_name, Num};
use crate::prelude::{dict_insert, Dict, Entries};
use crate::runtime;
use crate::runtime::{
    code_view, expr_view, exprs_view, links_view, named_exprs_view, names_view, offset_within,
    offsets_ok, offsets_within, ArithOp, ArmView, ExpressionView, StatementView,
};

verus! {

/// A link of a comparison chain.
#[derive(Clone, Copy, PartialEq, Eq, Structural, Debug)]
pub enum CompareOp {
    Equals,
    NEquals,
    LessEq,
    GreaterEq,
    Greater,
    Less,
}

#[derive(Debug)]
pub enum Expression {
    Var(String),
    /// A call written as names joined by dots, with its arguments.
    Method { names: Vec<String>, args: Vec<Expression> },
    SelfObject,
    SelfData,
    Data { name: String, fields: Vec<(String, Expression)> },
    Const(Num),
    Comparison(Box<Expression>, Vec<(CompareOp, Expression)>),
    Add(Box<Expression>, Box<Expression>),
    Sub(Box<Expression>, Box<Expression>),
    Mul(Box<Expression>, Box<Expression>),
    Div(Box<Expression>, Box<Expression>),
    Pow(Box<Expression>, Box<Expression>),
}

#[derive(Debug)]
pub enum Statement {
    Bang,
    Evaluate { expressions: Vec<Expression>, results: Vec<String> },
    State(Expression),
    CancelWait,
    /// Ends one round of the body of a loop over a set.
    Continue,
    WhileLoop { condition: Expression, block: Vec<Statement> },
    Branch { if_branches: Vec<(Expression, Vec<Statement>)>, else_branch: Vec<Statement> },
    Match { data: Expression, arms: Vec<(String, Vec<String>, Vec<Statement>)>, def: Vec<Statement> },
}

/// A procedure in structured form.
#[derive(Debug)]
pub struct Algorithm {
    pub param_list: Vec<String>,
    pub steps: Vec<Statement>,
}

/// Whether a call has a form that the language knows: one to three names,
/// one argument where one name stands for an interface, none for `Set.new`.
pub open spec fn method_ok(names: Seq<Seq<char>>, n_args: nat) -> bool {
    &&& 1 <= names.len() <= 3
    &&& names.len() == 1 ==> n_args == 1
    &&& names.len() == 2 && names[0] == "Set"@ && names[1] == "new"@ ==> n_args == 0
}

/// Whether every call in `e` has a form that the language knows.
pub open spec fn expr_ok(e: Expression) -> bool
    decreases e,
{
    match e {
        Expression::Method { names, args } => method_ok(names_view(names@), args@.len())
            && forall|i: int| 0 <= i < args@.len() ==> expr_ok(#[trigger] args@[i]),
        Expression::Data { name, fields } => forall|i: int|
            0 <= i < fields@.len() ==> expr_ok((#[trigger] fields@[i]).1),
        Expression::Comparison(first, rest) => expr_ok(*first) && forall|i: int|
            0 <= i < rest@.len() ==> expr_ok((#[trigger] rest@[i]).1),
        Expression::Add(x, y) => expr_ok(*x) && expr_ok(*y),
        Expression::Sub(x, y) => expr_ok(*x) && expr_ok(*y),
        Expression::Mul(x, y) => expr_ok(*x) && expr_ok(*y),
        Expression::Div(x, y) => expr_ok(*x) && expr_ok(*y),
        Expression::Pow(x, y) => expr_ok(*x) && expr_ok(*y),
        _ => true,
    }
}

/// The expression that a call stands for, by the number of its names.
pub open spec fn method_expr(names: Seq<Seq<char>>, args: Seq<ExpressionView>) -> ExpressionView {
    if names.len() == 1 {
        ExpressionView::VirtualizeObject { interface_name: names[0], object: Box::new(args[0]) }
    } else if names.len() == 2 {
        if names[0] == "Set"@ && names[1] == "new"@ {
            ExpressionView::InitSet
        } else if names[0] == "game"@ {
            ExpressionView::ExternCall { function_name: names[1], args }
        } else {
            ExpressionView::ExecObject { object_name: names[0], action_name: names[1], args }
        }
    } else {
        ExpressionView::InitObject {
            object_type: names[0],
            table_name: names[1],
            init_name: names[2],
            args,
        }
    }
}

/// The expression of the instruction set that `e` lowers to.
pub open spec fn lower_expr(e: Expression) -> ExpressionView
    decreases e, 0int,
{
    match e {
        Expression::Var(name) => ExpressionView::Var(name@),
        Expression::Method { names, args } => method_expr(names_view(names@), lower_exprs(args@)),
        Expression::SelfObject => ExpressionView::SelfObject,
        Expression::SelfData => ExpressionView::SelfData,
        Expression::Data { name, fields } => ExpressionView::Data {
            name: name@,
            fields: lower_fields(fields@, fields@.len() as int),
        },
        Expression::Const(x) => ExpressionView::Const(x),
        Expression::Comparison(first, rest) => ExpressionView::Comparison(
            Box::new(lower_expr(*first)),
            lower_links(rest@),
        ),
        Expression::Add(x, y) => ExpressionView::Arith(
            ArithOp::Add,
            Box::new(lower_expr(*x)),
            Box::new(lower_expr(*y)),
        ),
        Expression::Sub(x, y) => ExpressionView::Arith(
            ArithOp::Sub,
            Box::new(lower_expr(*x)),
            Box::new(lower_expr(*y)),
        ),
        Expression::Mul(x, y) => ExpressionView::Arith(
            ArithOp::Mul,
            Box::new(lower_expr(*x)),
            Box::new(lower_expr(*y)),
        ),
        Expression::Div(x, y) => ExpressionView::Arith(
            ArithOp::Div,
            Box::new(lower_expr(*x)),
            Box::new(lower_expr(*y)),
        ),
        Expression::Pow(x, y) => ExpressionView::Arith(
            ArithOp::Pow,
            Box::new(lower_expr(*x)),
            Box::new(lower_expr(*y)),
        ),
    }
}

pub open spec fn lower_exprs(v: Seq<Expression>) -> Seq<ExpressionView>
    decreases v, 0int,
{
    Seq::new(
        v.len(),
        |i: int|
            if 0 <= i < v.len() {
                lower_expr(v[i])
            } else {
                arbitrary()
            },
    )
}

pub open spec fn lower_links(v: Seq<(CompareOp, Expression)>) -> Seq<(CompareOp, ExpressionView)>
    decreases v, 0int,
{
    Seq::new(
        v.len(),
        |i: int|
            if 0 <= i < v.len() {
                (v[i].0, lower_expr(v[i].1))
            } else {
                arbitrary()
            },
    )
}

/// The fields of a record constructor after its first `n` fields were put
/// in, one after the other: a name that comes again replaces the expression.
pub open spec fn lower_fields(v: Seq<(String, Expression)>, n: int) -> Entries<ExpressionView>
    decreases v, n,
{
    if n <= 0 || n > v.len() {
        Seq::empty()
    } else {
        dict_insert(lower_fields(v, n - 1), v[n - 1].0@, lower_expr(v[n - 1].1))
    }
}

fn box_convert(val: &Box<Expression>) -> (r: Box<runtime::Expression>)
    requires
        expr_ok(**val),
    ensures
        (*r)@ == lower_expr(**val),
    decreases **val, 1int,
{
    Box::new(convert_expression(&**val))
}

fn convert_expressions(vals: &Vec<Expression>) -> (r: Vec<runtime::Expression>)
    requires
        forall|i: int| 0 <= i < vals@.len() ==> expr_ok(#[trigger] vals@[i]),
    ensures
        exprs_view(r@) == lower_exprs(vals@),
        r@.len() == vals@.len(),
    decreases vals, 1int,
{
    let mut r: Vec<runtime::Expression> = Vec::new();
    let n = vals.len();
    let mut i: usize = 0;
    while i < n
        invariant
            n == vals@.len(),
            i <= n,
            r@.len() == i,
            forall|j: int| 0 <= j < vals@.len() ==> expr_ok(#[trigger] vals@[j]),
            forall|j: int| 0 <= j < i ==> (#[trigger] r@[j])@ == lower_expr(vals@[j]),
        decreases n - i,
    {
        let e = convert_expression(&vals[i]);
        r.push(e);
        i += 1;
    }
    assert(exprs_view(r@) =~= lower_exprs(vals@));
    r
}

#[verifier::loop_isolation(false)]
fn convert_expression(val: &Expression) -> (r: runtime::Expression)
    requires
        expr_ok(*val),
    ensures
        r@ == lower_expr(*val),
    decreases *val, 0int,
{
    match val {
        Expression::Var(name) => runtime::Expression::Var(name.clone()),
        Expression::Method { names, args } => {
            let mut args = convert_expressions(args);
            assert(names_view(names@).len() == names@.len());
            if names.len() == 1 {
                assert(names_view(names@)[0] == names@[0]@);
                let ghost before = args@;
                let object = args.pop().unwrap();
                assert(object@ == exprs_view(before)[0]);
                
                runtime::Expression::VirtualizeObject {
                    interface_name: names[0].clone(),
                    object: Box::new(object),
                }
            } else if names.len() == 2 {
                assert(names_view(names@)[0] == names@[0]@);
                assert(names_view(names@)[1] == names@[1]@);
                if is_name(&names[0], "Set") && is_name(&names[1], "new") {
                    runtime::Expression::InitSet
                } else if is_name(&names[0], "game") {
                    runtime::Expression::ExternCall { function_name: names[1].clone(), args }
                } else {
                    runtime::Expression::ExecObject {
                        object_name: names[0].clone(),
                        action_name: names[1].clone(),
                        args,
                    }
                }
            } else {
                assert(names_view(names@)[0] == names@[0]@);
                assert(names_view(names@)[1] == names@[1]@);
                assert(names_view(names@)[2] == names@[2]@);
                runtime::Expression::InitObject {
                    object_type: names[0].clone(),
                    table_name: names[1].clone(),
                    init_name: names[2].clone(),
                    args,
                }
            }
        },
        Expression::SelfObject => runtime::Expression::SelfObject,
        Expression::SelfData => runtime::Expression::SelfData,
        Expression::Data { name, fields } => {
            let mut out: Dict<runtime::Expression> = Dict::new();
            let n = fields.len();
            let mut i: usize = 0;
            assert(named_exprs_view(out.entries@) =~= lower_fields(fields@, 0));
            while i < n
                invariant
                    n == fields@.len(),
                    i <= n,
                    forall|j: int| 0 <= j < fields@.len() ==> expr_ok((#[trigger] fields@[j]).1),
                    named_exprs_view(out.entries@) == lower_fields(fields@, i as int),
                decreases n - i,
            {
                let e = convert_expression(&fields[i].1);
                let ghost before = out;
                proof {
                    lemma_named_view(before);
                }
                out.insert(fields[i].0.clone(), e);
                proof {
                    lemma_named_view(out);
                    lemma_named_insert(before@, fields@[i as int].0@, e);
                }
                i += 1;
            }
            runtime::Expression::Data { name: name.clone(), fields: out }
        },
        Expression::Const(x) => runtime::Expression::Const(*x),
        Expression::Comparison(first, rest) => {
            let head = box_convert(first);
            let mut links: Vec<(CompareOp, runtime::Expression)> = Vec::new();
            let n = rest.len();
            let mut i: usize = 0;
            while i < n
                invariant
                    n == rest@.len(),
                    i <= n,
                    links@.len() == i,
                    forall|j: int| 0 <= j < rest@.len() ==> expr_ok((#[trigger] rest@[j]).1),
                    forall|j: int|
                        0 <= j < i ==> (#[trigger] links@[j]).0 == rest@[j].0 && links@[j].1@
                            == lower_expr(rest@[j].1),
                decreases n - i,
            {
                let e = convert_expression(&rest[i].1);
                links.push((rest[i].0, e));
                i += 1;
            }
            assert(links_view(links@) =~= lower_links(rest@));
            runtime::Expression::Comparison(head, links)
        },
        Expression::Add(x, y) => runtime::Expression::Add(box_convert(x), box_convert(y)),
        Expression::Sub(x, y) => runtime::Expression::Sub(box_convert(x), box_convert(y)),
        Expression::Mul(x, y) => runtime::Expression::Mul(box_convert(x), box_convert(y)),
        Expression::Div(x, y) => runtime::Expression::Div(box_convert(x), box_convert(y)),
        Expression::Pow(x, y) => runtime::Expression::Pow(box_convert(x), box_convert(y)),
    }
}

/// The view of the entries of a dictionary of expressions, taken through the
/// dictionary's own view.
pub open spec fn named_view(d: Entries<runtime::Expression>) -> Entries<ExpressionView> {
    Seq::new(d.len(), |i: int| (d[i].0, d[i].1@))
}

proof fn lemma_named_view(d: Dict<runtime::Expression>)
    ensures
        named_exprs_view(d.entries@) == named_view(d@),
{
    assert(named_exprs_view(d.entries@) =~= named_view(d@));
}

proof fn lemma_named_insert(d: Entries<runtime::Expression>, key: Seq<char>, e: runtime::Expression)
    ensures
        named_view(dict_insert(d, key, e)) == dict_insert(named_view(d), key, e@),
{
    lemma_find_named(d, key);
    crate::prelude::lemma_dict_find(d, key);
    match crate::prelude::dict_find(d, key) {
        Some(i) => {
            assert(named_view(d.update(i, (key, e))) =~= named_view(d).update(i, (key, e@)));
        },
        None => {
            assert(named_view(d.push((key, e))) =~= named_view(d).push((key, e@)));
        },
    }
}

proof fn lemma_find_named(d: Entries<runtime::Expression>, key: Seq<char>)
    ensures
        crate::prelude::dict_find(named_view(d), key) == crate::prelude::dict_find(d, key),
    decreases d.len(),
{
    if d.len() > 0 {
        lemma_find_named(d.drop_last(), key);
        assert(named_view(d).drop_last() =~= named_view(d.drop_last()));
    }
}

/// The instruction that a call standing alone as a statement is rewritten
/// to, where it is one of the built-ins.
pub open spec fn simple_call(names: Seq<Seq<char>>, args: Seq<ExpressionView>) -> Option<
    StatementView,
> {
    if names.len() == 1 && names[0] == "print"@ {
        Some(StatementView::DebugNums(args))
    } else if names.len() == 1 && names[0] == "wait"@ {
        Some(StatementView::Wait(args[0]))
    } else if names.len() == 2 && names[1] == "add"@ {
        Some(StatementView::SetAdd { set_name: names[0], to_add: args[0] })
    } else if names.len() == 2 && names[1] == "remove"@ {
        Some(StatementView::SetRemove { set_name: names[0], to_remove: args[0] })
    } else {
        None
    }
}

/// Whether a built-in that takes one argument is given one.
pub open spec fn simple_call_ok(names: Seq<Seq<char>>, n_args: nat) -> bool {
    (names.len() == 1 && names[0] == "print"@) || n_args == 1
}

pub open spec fn exprs_ok(v: Seq<Expression>) -> bool {
    forall|i: int| 0 <= i < v.len() ==> expr_ok(#[trigger] v[i])
}

/// Whether an evaluation can be lowered: a statement without results is one
/// expression, and a built-in has the arguments it takes.
pub open spec fn evaluate_ok(expressions: Seq<Expression>, results: Seq<String>) -> bool {
    if results.len() == 0 {
        expressions.len() == 1 && match expressions[0] {
            Expression::Method { names, args } => if simple_call(
                names_view(names@),
                lower_exprs(args@),
            ) is Some {
                exprs_ok(args@) && simple_call_ok(names_view(names@), args@.len())
            } else {
                expr_ok(expressions[0])
            },
            _ => expr_ok(expressions[0]),
        }
    } else {
        exprs_ok(expressions)
    }
}

pub open spec fn lower_evaluate(expressions: Seq<Expression>, results: Seq<String>)
    -> StatementView {
    let generic = StatementView::Evaluate {
        expressions: lower_exprs(expressions),
        results: names_view(results),
    };
    if results.len() == 0 && expressions.len() == 1 {
        match expressions[0] {
            Expression::Method { names, args } => match simple_call(
                names_view(names@),
                lower_exprs(args@),
            ) {
                Some(s) => s,
                None => generic,
            },
            _ => generic,
        }
    } else {
        generic
    }
}

/// Whether every statement of the tree can be lowered.
pub open spec fn stmt_ok(s: Statement) -> bool
    decreases s,
{
    match s {
        Statement::Evaluate { expressions, results } => evaluate_ok(expressions@, results@),
        Statement::State(e) => expr_ok(e),
        Statement::WhileLoop { condition, block } => expr_ok(condition) && forall|i: int|
            0 <= i < block@.len() ==> stmt_ok(#[trigger] block@[i]),
        Statement::Branch { if_branches, else_branch } => {
            &&& forall|i: int|
                0 <= i < if_branches@.len() ==> expr_ok((#[trigger] if_branches@[i]).0)
            &&& forall|i: int, j: int|
                0 <= i < if_branches@.len() && 0 <= j < if_branches@[i].1@.len() ==> stmt_ok(
                    #[trigger] if_branches@[i].1@[j],
                )
            &&& forall|i: int| 0 <= i < else_branch@.len() ==> stmt_ok(#[trigger] else_branch@[i])
        },
        Statement::Match { data, arms, def } => {
            &&& expr_ok(data)
            &&& forall|i: int, j: int|
                0 <= i < arms@.len() && 0 <= j < arms@[i].2@.len() ==> stmt_ok(
                    #[trigger] arms@[i].2@[j],
                )
            &&& forall|i: int| 0 <= i < def@.len() ==> stmt_ok(#[trigger] def@[i])
        },
        _ => true,
    }
}

pub open spec fn stmts_ok(v: Seq<Statement>) -> bool {
    forall|i: int| 0 <= i < v.len() ==> stmt_ok(#[trigger] v[i])
}

/// Where block `n` starts when the blocks follow each other from `initial`,
/// each closed by one jump.
pub open spec fn block_start(blocks: Seq<Seq<StatementView>>, n: int, initial: int) -> int
    decreases n,
{
    if n <= 0 {
        initial
    } else {
        block_start(blocks, n - 1, initial) + blocks[n - 1].len() + 1
    }
}

/// The first `n` blocks, each followed by a jump to the end of them all.
pub open spec fn link_upto(blocks: Seq<Seq<StatementView>>, n: int, initial: int) -> Seq<
    StatementView,
>
    decreases n,
{
    if n <= 0 {
        Seq::empty()
    } else {
        link_upto(blocks, n - 1, initial) + blocks[n - 1] + seq![
            StatementView::Jump(
                (block_start(blocks, blocks.len() as int, initial) - block_start(
                    blocks,
                    n,
                    initial,
                ) + 1) as isize,
            ),
        ]
    }
}

/// The blocks laid out one after the other: whichever runs, its closing jump
/// leads past the last of them.
pub open spec fn link(blocks: Seq<Seq<StatementView>>, initial: int) -> Seq<StatementView> {
    link_upto(blocks, blocks.len() as int, initial)
}

/// The instructions that a statement lowers to.
pub open spec fn lower_stmt(s: Statement) -> Seq<StatementView>
    decreases s, 0int,
{
    match s {
        Statement::Bang => seq![StatementView::Debug("BANG"@)],
        Statement::Evaluate { expressions, results } => seq![
            lower_evaluate(expressions@, results@),
        ],
        Statement::State(e) => seq![StatementView::State(lower_expr(e))],
        Statement::CancelWait => seq![StatementView::CancelWait],
        Statement::Continue => seq![StatementView::ContinueLoop],
        Statement::WhileLoop { condition, block } => {
            let body = lower_stmts(block@, block@.len() as int);
            seq![
                StatementView::Branch {
                    condition: lower_expr(condition),
                    break_offset: (body.len() + 2) as usize,
                },
            ] + body + seq![StatementView::Continue((body.len() + 1) as usize)]
        },
        Statement::Branch { if_branches, else_branch } => link(
            guarded_blocks(if_branches@).push(lower_stmts(else_branch@, else_branch@.len() as int)),
            0,
        ),
        Statement::Match { data, arms, def } => {
            let blocks = arm_blocks(arms@).push(lower_stmts(def@, def@.len() as int));
            seq![
                StatementView::PatternBranch {
                    data: lower_expr(data),
                    arms: arm_table(arms@, arms@.len() as int, blocks),
                    default_offset: block_start(blocks, arms@.len() as int, 1) as usize,
                },
            ] + link(blocks, 1)
        },
    }
}

/// The instructions that the first `n` statements of `v` lower to.
pub open spec fn lower_stmts(v: Seq<Statement>, n: int) -> Seq<StatementView>
    decreases v, n,
{
    if n <= 0 || n > v.len() {
        Seq::empty()
    } else {
        lower_stmts(v, n - 1) + lower_stmt(v[n - 1])
    }
}

/// The blocks of an if-chain: each guarded block begins with the branch that
/// skips it.
pub open spec fn guarded_blocks(v: Seq<(Expression, Vec<Statement>)>) -> Seq<Seq<StatementView>>
    decreases v, 0int,
{
    Seq::new(
        v.len(),
        |i: int|
            if 0 <= i < v.len() {
                let body = lower_stmts(v[i].1@, v[i].1@.len() as int);
                seq![
                    StatementView::Branch {
                        condition: lower_expr(v[i].0),
                        break_offset: (body.len() + 2) as usize,
                    },
                ] + body
            } else {
                arbitrary()
            },
    )
}

/// The blocks of the arms of a match.
pub open spec fn arm_blocks(v: Seq<(String, Vec<String>, Vec<Statement>)>) -> Seq<
    Seq<StatementView>,
>
    decreases v, 0int,
{
    Seq::new(
        v.len(),
        |i: int|
            if 0 <= i < v.len() {
                lower_stmts(v[i].2@, v[i].2@.len() as int)
            } else {
                arbitrary()
            },
    )
}

/// The table of a pattern branch after the first `n` arms were put in: for
/// each tag the fields to bind and the distance to the arm's block. A tag
/// that comes again replaces the arm.
pub open spec fn arm_table(
    arms: Seq<(String, Vec<String>, Vec<Statement>)>,
    n: int,
    blocks: Seq<Seq<StatementView>>,
) -> Entries<ArmView>
    decreases n,
{
    if n <= 0 {
        Seq::empty()
    } else {
        dict_insert(
            arm_table(arms, n - 1, blocks),
            arms[n - 1].0@,
            ArmView {
                fields: names_view(arms[n - 1].1@),
                offset: block_start(blocks, n - 1, 1) as usize,
            },
        )
    }
}

/// The whole code of a list of statements.
pub open spec fn lower(v: Seq<Statement>) -> Seq<StatementView> {
    lower_stmts(v, v.len() as int)
}

/// The views of a list of blocks.
pub open spec fn blocks_view(b: Seq<Vec<runtime::Statement>>) -> Seq<Seq<StatementView>> {
    Seq::new(b.len(), |i: int| code_view(b[i]@))
}

/// Block starts grow with the block's number, by at least each block and its
/// jump.
pub proof fn lemma_block_start(blocks: Seq<Seq<StatementView>>, i: int, j: int, initial: int)
    requires
        0 <= i <= j,
    ensures
        block_start(blocks, i, initial) <= block_start(blocks, j, initial),
        i < j ==> block_start(blocks, i, initial) + blocks[i].len() + 1 <= block_start(
            blocks,
            j,
            initial,
        ),
    decreases j,
{
    if i < j {
        lemma_block_start(blocks, i, j - 1, initial);
    }
}

/// The linked blocks end where the next block would start.
pub proof fn lemma_link_len(blocks: Seq<Seq<StatementView>>, n: int, initial: int)
    requires
        0 <= n,
    ensures
        link_upto(blocks, n, initial).len() == block_start(blocks, n, initial) - initial,
    decreases n,
{
    if n > 0 {
        lemma_link_len(blocks, n - 1, initial);
    }
}

/// The code of a list grows with the number of statements taken, by each
/// statement's own code.
pub proof fn lemma_lower_len(v: Seq<Statement>, i: int, j: int)
    requires
        0 <= i <= j <= v.len(),
    ensures
        lower_stmts(v, i).len() <= lower_stmts(v, j).len(),
        i < j ==> lower_stmts(v, i).len() + lower_stmt(v[i]).len() <= lower_stmts(v, j).len(),
    decreases j,
{
    if i < j {
        lemma_lower_len(v, i, j - 1);
    }
}

pub proof fn lemma_code_view_add(a: Seq<runtime::Statement>, b: Seq<runtime::Statement>)
    ensures
        code_view(a + b) == code_view(a) + code_view(b),
{
    assert(code_view(a + b) =~= code_view(a) + code_view(b));
}

pub proof fn lemma_code_view_push(a: Seq<runtime::Statement>, x: runtime::Statement)
    ensures
        code_view(a.push(x)) == code_view(a).push(x@),
{
    assert(code_view(a.push(x)) =~= code_view(a).push(x@));
}

/// Copies a list of names.
pub fn clone_names(v: &Vec<String>) -> (r: Vec<String>)
    ensures
        names_view(r@) == names_view(v@),
{
    let mut r: Vec<String> = Vec::new();
    let n = v.len();
    let mut i: usize = 0;
    while i < n
        invariant
            n == v@.len(),
            i <= n,
            r@.len() == i,
            forall|j: int| 0 <= j < i ==> (#[trigger] r@[j])@ == v@[j]@,
        decreases n - i,
    {
        r.push(v[i].clone());
        i += 1;
    }
    assert(names_view(r@) =~= names_view(v@));
    r
}

/// Lays blocks out one after the other, each closed by a jump past the last
/// of them, and returns the code with the place where each block starts: the
/// first at `initial_offset`, and last the place behind them all.
pub fn link_blocks(blocks: Vec<Vec<runtime::Statement>>, initial_offset: usize) -> (r: (
    Vec<runtime::Statement>,
    Vec<usize>,
))
    requires
        block_start(blocks_view(blocks@), blocks@.len() as int, initial_offset as int)
            <= isize::MAX,
    ensures
        code_view(r.0@) == link(blocks_view(blocks@), initial_offset as int),
        r.1@.len() == blocks@.len() + 1,
        forall|i: int|
            0 <= i <= blocks@.len() ==> #[trigger] r.1@[i] == block_start(
                blocks_view(blocks@),
                i,
                initial_offset as int,
            ),
{
    let ghost views = blocks_view(blocks@);
    let ghost initial = initial_offset as int;
    let n = blocks.len();
    let mut offset = initial_offset;
    let mut offsets: Vec<usize> = Vec::new();
    let mut i: usize = 0;
    while i < n
        invariant
            n == blocks@.len(),
            views == blocks_view(blocks@),
            initial == initial_offset,
            i <= n,
            offsets@.len() == i,
            offset == block_start(views, i as int, initial),
            block_start(views, n as int, initial) <= isize::MAX,
            forall|j: int| 0 <= j < i ==> #[trigger] offsets@[j] == block_start(views, j, initial),
        decreases n - i,
    {
        proof {
            lemma_block_start(views, i as int, n as int, initial);
        }
        offsets.push(offset);
        offset = offset + blocks[i].len() + 1;
        i += 1;
    }
    offsets.push(offset);
    let mut blocks = blocks;
    let ghost all = blocks@;
    let mut result: Vec<runtime::Statement> = Vec::new();
    let mut k: usize = 0;
    assert(code_view(result@) =~= link_upto(views, 0, initial));
    while k < n
        invariant
            n == all.len(),
            views == blocks_view(all),
            initial == initial_offset,
            k <= n,
            blocks@ == all.subrange(k as int, n as int),
            offsets@.len() == n + 1,
            offset == block_start(views, n as int, initial),
            offset <= isize::MAX,
            forall|j: int| 0 <= j <= n ==> #[trigger] offsets@[j] == block_start(views, j, initial),
            code_view(result@) == link_upto(views, k as int, initial),
        decreases n - k,
    {
        let next_offset = offsets[k + 1];
        proof {
            lemma_block_start(views, k as int + 1, n as int, initial);
            lemma_block_start(views, 0, k as int + 1, initial);
        }
        let mut block = blocks.remove(0);
        assert(block == all[k as int]);
        let skip = offset - next_offset + 1;
        proof {
            lemma_code_view_add(result@, block@);
            lemma_code_view_push(result@ + block@, runtime::Statement::Jump(skip as isize));
        }
        result.append(&mut block);
        result.push(runtime::Statement::Jump(skip as isize));
        assert(blocks@ =~= all.subrange(k as int + 1, n as int));
        k += 1;
    }
    (result, offsets)
}

/// The views of the arms of a pattern branch follow an insertion.
proof fn lemma_arms_insert(
    d: Entries<(Vec<String>, usize)>,
    key: Seq<char>,
    fields: Vec<String>,
    offset: usize,
)
    ensures
        runtime::arms_view(dict_insert(d, key, (fields, offset))) == dict_insert(
            runtime::arms_view(d),
            key,
            ArmView { fields: names_view(fields@), offset },
        ),
{
    lemma_find_arms(d, key);
    crate::prelude::lemma_dict_find(d, key);
    let arm = ArmView { fields: names_view(fields@), offset };
    match crate::prelude::dict_find(d, key) {
        Some(i) => {
            assert(runtime::arms_view(d.update(i, (key, (fields, offset))))
                =~= runtime::arms_view(d).update(i, (key, arm)));
        },
        None => {
            assert(runtime::arms_view(d.push((key, (fields, offset)))) =~= runtime::arms_view(
                d,
            ).push((key, arm)));
        },
    }
}

pub proof fn lemma_find_arms(d: Entries<(Vec<String>, usize)>, key: Seq<char>)
    ensures
        crate::prelude::dict_find(runtime::arms_view(d), key) == crate::prelude::dict_find(d, key),
    decreases d.len(),
{
    if d.len() > 0 {
        lemma_find_arms(d.drop_last(), key);
        assert(runtime::arms_view(d).drop_last() =~= runtime::arms_view(d.drop_last()));
    }
}

/// Rewrites a call that stands alone as a statement to its own instruction,
/// where it is one of the built-ins `print`, `wait`, `add` and `remove`.
pub fn convert_simple_statement(names: &Vec<String>, args: &Vec<Expression>) -> (r: Option<
    runtime::Statement,
>)
    requires
        exprs_ok(args@),
        simple_call(names_view(names@), lower_exprs(args@)) is Some ==> simple_call_ok(
            names_view(names@),
            args@.len(),
        ),
    ensures
        match r {
            Some(st) => simple_call(names_view(names@), lower_exprs(args@)) == Some(st@),
            None => simple_call(names_view(names@), lower_exprs(args@)) is None,
        },
{
    assert(names_view(names@).len() == names@.len());
    if names.len() == 1 {
        assert(names_view(names@)[0] == names@[0]@);
        if is_name(&names[0], "print") {
            return Some(runtime::Statement::DebugNums(convert_expressions(args)));
        } else if is_name(&names[0], "wait") {
            let mut converted = convert_expressions(args);
            let ghost before = converted@;
            let arg = converted.pop().unwrap();
            assert(arg@ == exprs_view(before)[0]);
            return Some(runtime::Statement::Wait(arg));
        }
    } else if names.len() == 2 {
        assert(names_view(names@)[0] == names@[0]@);
        assert(names_view(names@)[1] == names@[1]@);
        if is_name(&names[1], "add") {
            let mut converted = convert_expressions(args);
            let ghost before = converted@;
            let arg = converted.pop().unwrap();
            assert(arg@ == exprs_view(before)[0]);
            return Some(
                runtime::Statement::SetAdd { set_name: names[0].clone(), to_add: arg },
            );
        } else if is_name(&names[1], "remove") {
            let mut converted = convert_expressions(args);
            let ghost before = converted@;
            let arg = converted.pop().unwrap();
            assert(arg@ == exprs_view(before)[0]);
            return Some(
                runtime::Statement::SetRemove { set_name: names[0].clone(), to_remove: arg },
            );
        }
    }
    None
}

/// Lowers a list of statements.
pub fn convert_statements(steps: &Vec<Statement>) -> (r: Vec<runtime::Statement>)
    requires
        stmts_ok(steps@),
        lower(steps@).len() <= isize::MAX,
    ensures
        code_view(r@) == lower(steps@),
    decreases steps, 2int,
{
    let mut result: Vec<runtime::Statement> = Vec::new();
    let n = steps.len();
    let mut i: usize = 0;
    assert(code_view(result@) =~= lower_stmts(steps@, 0));
    while i < n
        invariant
            n == steps@.len(),
            i <= n,
            stmts_ok(steps@),
            lower(steps@).len() <= isize::MAX,
            code_view(result@) == lower_stmts(steps@, i as int),
        decreases n - i,
    {
        proof {
            lemma_lower_len(steps@, i as int, n as int);
        }
        convert_statement(&steps[i], &mut result);
        i += 1;
    }
    result
}

/// Puts one instruction at the end of `result`.
fn push_one(result: &mut Vec<runtime::Statement>, st: runtime::Statement)
    ensures
        code_view(final(result)@) == code_view(old(result)@) + seq![st@],
{
    proof {
        lemma_code_view_push(result@, st);
    }
    let ghost start = result@;
    result.push(st);
    assert(code_view(start).push(st@) =~= code_view(start) + seq![st@]);
}

/// Lowers an evaluation: to a built-in's instruction where it is one.
#[verifier::loop_isolation(false)]
fn convert_evaluate(step: &Statement, result: &mut Vec<runtime::Statement>)
    requires
        *step is Evaluate,
        stmt_ok(*step),
        lower_stmt(*step).len() <= isize::MAX,
    ensures
        code_view(final(result)@) == code_view(old(result)@) + lower_stmt(*step),
    decreases *step, 0int,
{
    let ghost start = result@;
    match step {
        Statement::Evaluate { expressions, results } => {
            if results.len() == 0 {
                match &expressions[0] {
                    Expression::Method { names, args } => {
                        match convert_simple_statement(names, args) {
                            Some(st) => {
                                proof {
                                    lemma_code_view_push(start, st);
                                }
                                result.push(st);
                                assert(code_view(start).push(st@) =~= code_view(start)
                                    + lower_stmt(*step));
                                return ;
                            },
                            None => {},
                        }
                    },
                    _ => {},
                }
            }
            let st = runtime::Statement::Evaluate {
                expressions: convert_expressions(expressions),
                results: clone_names(results),
            };
            proof {
                lemma_code_view_push(start, st);
            }
            result.push(st);
            assert(code_view(start).push(st@) =~= code_view(start) + lower_stmt(*step));
        },
        _ => {},
    }
}

/// Lowers a loop: a branch past the body, the body, and the way back.
#[verifier::loop_isolation(false)]
fn convert_while(step: &Statement, result: &mut Vec<runtime::Statement>)
    requires
        *step is WhileLoop,
        stmt_ok(*step),
        lower_stmt(*step).len() <= isize::MAX,
    ensures
        code_view(final(result)@) == code_view(old(result)@) + lower_stmt(*step),
    decreases *step, 0int,
{
    let ghost start = result@;
    match step {
        Statement::WhileLoop { condition, block } => {
            let condition = convert_expression(condition);
            let mut body = convert_statements(block);
            let ghost body_code = body@;
            let block_len = body.len();
            let head = runtime::Statement::Branch { condition, break_offset: block_len + 2 };
            let tail = runtime::Statement::Continue(block_len + 1);
            proof {
                lemma_code_view_push(start, head);
                lemma_code_view_add(start.push(head), body_code);
                lemma_code_view_push(start.push(head) + body_code, tail);
            }
            result.push(head);
            result.append(&mut body);
            result.push(tail);
            assert(code_view(result@) =~= code_view(start) + lower_stmt(*step));
        },
        _ => {},
    }
}

/// Lowers an if-chain: its blocks, linked.
#[verifier::loop_isolation(false)]
fn convert_branch(step: &Statement, result: &mut Vec<runtime::Statement>)
    requires
        *step is Branch,
        stmt_ok(*step),
        lower_stmt(*step).len() <= isize::MAX,
    ensures
        code_view(final(result)@) == code_view(old(result)@) + lower_stmt(*step),
    decreases *step, 0int,
{
    let ghost start = result@;
    match step {
        Statement::Branch { if_branches, else_branch } => {
            let ghost all = guarded_blocks(if_branches@).push(lower(else_branch@));
            proof {
                lemma_link_len(all, all.len() as int, 0);
            }
            let n = if_branches.len();
            let mut blocks: Vec<Vec<runtime::Statement>> = Vec::new();
            let mut i: usize = 0;
            while i < n
                invariant
                    i <= n,
                    blocks@.len() == i,
                    forall|j: int| 0 <= j < i ==> code_view((#[trigger] blocks@[j])@) == all[j],
                decreases n - i,
            {
                proof {
                    lemma_block_start(all, i as int, all.len() as int, 0);
                    lemma_block_start(all, 0, i as int, 0);
                }
                let condition = convert_expression(&if_branches[i].0);
                let mut body = convert_statements(&if_branches[i].1);
                let ghost body_code = body@;
                let head = runtime::Statement::Branch { condition, break_offset: body.len() + 2 };
                let mut block: Vec<runtime::Statement> = Vec::new();
                block.push(head);
                block.append(&mut body);
                proof {
                    lemma_code_view_add(seq![head], body_code);
                    assert(code_view(seq![head]) =~= seq![head@]);
                    assert(block@ =~= seq![head] + body_code);
                }
                blocks.push(block);
                i += 1;
            }
            proof {
                lemma_block_start(all, n as int, all.len() as int, 0);
                lemma_block_start(all, 0, n as int, 0);
            }
            let rest = convert_statements(else_branch);
            blocks.push(rest);
            assert(blocks_view(blocks@) =~= all);
            let (mut codes, offsets) = link_blocks(blocks, 0);
            proof {
                lemma_code_view_add(start, codes@);
            }
            result.append(&mut codes);
        },
        _ => {},
    }
}

/// Lowers a match: the pattern branch, then the arms' blocks, linked.
#[verifier::loop_isolation(false)]
fn convert_match(step: &Statement, result: &mut Vec<runtime::Statement>)
    requires
        *step is Match,
        stmt_ok(*step),
        lower_stmt(*step).len() <= isize::MAX,
    ensures
        code_view(final(result)@) == code_view(old(result)@) + lower_stmt(*step),
    decreases *step, 0int,
{
    let ghost start = result@;
    match step {
        Statement::Match { data, arms, def } => {
            let ghost all = arm_blocks(arms@).push(lower(def@));
            proof {
                lemma_link_len(all, all.len() as int, 1);
            }
            let n = arms.len();
            let mut blocks: Vec<Vec<runtime::Statement>> = Vec::new();
            let mut i: usize = 0;
            while i < n
                invariant
                    i <= n,
                    blocks@.len() == i,
                    forall|j: int| 0 <= j < i ==> code_view((#[trigger] blocks@[j])@) == all[j],
                decreases n - i,
            {
                proof {
                    lemma_block_start(all, i as int, all.len() as int, 1);
                    lemma_block_start(all, 0, i as int, 1);
                }
                let block = convert_statements(&arms[i].2);
                blocks.push(block);
                i += 1;
            }
            proof {
                lemma_block_start(all, n as int, all.len() as int, 1);
                lemma_block_start(all, 0, n as int, 1);
            }
            let rest = convert_statements(def);
            blocks.push(rest);
            assert(blocks_view(blocks@) =~= all);
            let (mut codes, offsets) = link_blocks(blocks, 1);
            let mut new_arms: Dict<(Vec<String>, usize)> = Dict::new();
            let mut k: usize = 0;
            assert(runtime::arms_view(new_arms@) =~= arm_table(arms@, 0, all));
            while k < n
                invariant
                    k <= n,
                    runtime::arms_view(new_arms@) == arm_table(arms@, k as int, all),
                decreases n - k,
            {
                let fields = clone_names(&arms[k].1);
                let offset = offsets[k];
                proof {
                    lemma_arms_insert(new_arms@, arms@[k as int].0@, fields, offset);
                }
                new_arms.insert(arms[k].0.clone(), (fields, offset));
                k += 1;
            }
            let head = runtime::Statement::PatternBranch {
                data: convert_expression(data),
                arms: new_arms,
                default_offset: offsets[n],
            };
            proof {
                lemma_code_view_push(start, head);
                lemma_code_view_add(start.push(head), codes@);
            }
            result.push(head);
            result.append(&mut codes);
            assert(code_view(result@) =~= code_view(start) + lower_stmt(*step));
        },
        _ => {},
    }
}

/// Lowers one statement and puts its instructions at the end of `result`.
pub fn convert_statement(step: &Statement, result: &mut Vec<runtime::Statement>)
    requires
        stmt_ok(*step),
        lower_stmt(*step).len() <= isize::MAX,
    ensures
        code_view(final(result)@) == code_view(old(result)@) + lower_stmt(*step),
    decreases *step, 1int,
{
    match step {
        Statement::Bang => push_one(result, runtime::Statement::Debug(String::from_str("BANG"))),
        Statement::Evaluate { .. } => convert_evaluate(step, result),
        Statement::State(state) => push_one(
            result,
            runtime::Statement::State(convert_expression(state)),
        ),
        Statement::CancelWait => push_one(result, runtime::Statement::CancelWait),
        Statement::Continue => push_one(result, runtime::Statement::ContinueLoop),
        Statement::WhileLoop { .. } => convert_while(step, result),
        Statement::Branch { .. } => convert_branch(step, result),
        Statement::Match { .. } => convert_match(step, result),
    }
}

/// Whether an algorithm can be lowered: every statement has a form that the
/// language knows, and its code is no longer than a program counter can
/// count.
pub open spec fn algorithm_ok(alg: Algorithm) -> bool {
    stmts_ok(alg.steps@) && lower(alg.steps@).len() <= isize::MAX
}

/// Lowers an algorithm from its structured form to instructions.
pub fn convert_algorithm(alg: Algorithm) -> (r: runtime::Algorithm)
    requires
        algorithm_ok(alg),
    ensures
        r@.param_list == names_view(alg.param_list@),
        r@.steps == lower(alg.steps@),
        offsets_ok(r@.steps),
{
    proof {
        law_lowered_offsets(alg.steps@, alg.steps@.len() as int);
    }
    let steps = convert_statements(&alg.steps);
    runtime::Algorithm { param_list: alg.param_list, steps }
}

/// Code whose offsets stay within `limit` keeps them within the whole when
/// it stands at `at` in a longer code that has room for them.
pub proof fn lemma_offsets_embed(
    code: Seq<StatementView>,
    part: Seq<StatementView>,
    at: int,
    limit: int,
)
    requires
        0 <= at,
        at + part.len() <= code.len(),
        at + limit <= code.len(),
        forall|i: int| 0 <= i < part.len() ==> code[at + i] == part[i],
        offsets_within(part, limit),
    ensures
        forall|i: int|
            at <= i < at + part.len() ==> offset_within(#[trigger] code[i], i, code.len() as int),
{
    assert forall|i: int| at <= i < at + part.len() implies offset_within(
        #[trigger] code[i],
        i,
        code.len() as int,
    ) by {
        assert(code[at + (i - at)] == part[i - at]);
        assert(offset_within(part[i - at], i - at, limit));
    }
}

/// Where the blocks and their jumps stand in the linked code.
pub proof fn lemma_link_layout(blocks: Seq<Seq<StatementView>>, n: int, initial: int, j: int)
    requires
        0 <= j < n,
    ensures
        ({
            let code = link_upto(blocks, n, initial);
            let at = block_start(blocks, j, initial) - initial;
            &&& 0 <= at
            &&& at + blocks[j].len() < code.len()
            &&& forall|i: int| 0 <= i < blocks[j].len() ==> code[at + i] == blocks[j][i]
            &&& code[at + blocks[j].len()] == StatementView::Jump(
                (block_start(blocks, blocks.len() as int, initial) - block_start(
                    blocks,
                    j + 1,
                    initial,
                ) + 1) as isize,
            )
        }),
    decreases n,
{
    lemma_link_len(blocks, n, initial);
    lemma_link_len(blocks, n - 1, initial);
    lemma_block_start(blocks, 0, j, initial);
    lemma_block_start(blocks, j, n - 1, initial);
    if j < n - 1 {
        lemma_link_layout(blocks, n - 1, initial, j);
    }
}

/// Every offset in the table of a pattern branch is the start of an arm's
/// block.
pub proof fn lemma_arm_table(
    arms: Seq<(String, Vec<String>, Vec<Statement>)>,
    n: int,
    blocks: Seq<Seq<StatementView>>,
)
    requires
        0 <= n,
    ensures
        forall|k: int|
            0 <= k < arm_table(arms, n, blocks).len() ==> exists|a: int|
                0 <= a < n && (#[trigger] arm_table(arms, n, blocks)[k]).1.offset == block_start(
                    blocks,
                    a,
                    1,
                ) as usize,
    decreases n,
{
    if n > 0 {
        lemma_arm_table(arms, n - 1, blocks);
        let prev = arm_table(arms, n - 1, blocks);
        let key = arms[n - 1].0@;
        crate::prelude::lemma_dict_find(prev, key);
        let now = arm_table(arms, n, blocks);
        assert forall|k: int| 0 <= k < now.len() implies exists|a: int|
            0 <= a < n && (#[trigger] now[k]).1.offset == block_start(blocks, a, 1) as usize by {
            if now[k].1.offset == block_start(blocks, n - 1, 1) as usize {
            } else {
                assert(now[k] == prev[k]);
                let a = choose|a: int|
                    0 <= a < n - 1 && prev[k].1.offset == block_start(blocks, a, 1) as usize;
                assert(0 <= a < n);
            }
        }
    }
}

/// Linked blocks keep every offset within the linked code, where each block
/// keeps its own within itself and the jump that closes it.
pub proof fn lemma_link_offsets(blocks: Seq<Seq<StatementView>>, initial: int)
    requires
        0 <= initial,
        block_start(blocks, blocks.len() as int, initial) <= isize::MAX,
        forall|j: int|
            0 <= j < blocks.len() ==> offsets_within(
                #[trigger] blocks[j],
                blocks[j].len() as int + 1,
            ),
    ensures
        offsets_ok(link(blocks, initial)),
{
    let n = blocks.len() as int;
    let code = link(blocks, initial);
    lemma_link_len(blocks, n, initial);
    assert forall|i: int| 0 <= i < code.len() implies offset_within(
        #[trigger] code[i],
        i,
        code.len() as int,
    ) by {
        let j = lemma_link_owner(blocks, n, initial, i);
        lemma_link_layout(blocks, n, initial, j);
        lemma_block_start(blocks, j, n, initial);
        lemma_block_start(blocks, j + 1, n, initial);
        lemma_block_start(blocks, 0, j, initial);
        let at = block_start(blocks, j, initial) - initial;
        if i < at + blocks[j].len() {
            lemma_offsets_embed(code, blocks[j], at, blocks[j].len() as int + 1);
        }
    }
}

/// The block in which, or behind which, place `i` of the linked code lies.
pub proof fn lemma_link_owner(blocks: Seq<Seq<StatementView>>, n: int, initial: int, i: int)
    -> (j: int)
    requires
        0 <= i < link_upto(blocks, n, initial).len(),
    ensures
        0 <= j < n,
        block_start(blocks, j, initial) - initial <= i <= block_start(blocks, j, initial) - initial
            + blocks[j].len(),
    decreases n,
{
    lemma_link_len(blocks, n, initial);
    if n <= 0 {
        0
    } else {
        lemma_link_len(blocks, n - 1, initial);
        if i < link_upto(blocks, n - 1, initial).len() {
            lemma_link_owner(blocks, n - 1, initial, i)
        } else {
            n - 1
        }
    }
}

/// Offset safety of lowered code: every branch, pattern branch, jump and
/// loop return that lowering makes leads, once applied, to a program counter
/// from 0 to the length of the code.
pub proof fn law_lowered_offsets(v: Seq<Statement>, n: int)
    requires
        0 <= n <= v.len(),
        lower_stmts(v, n).len() <= isize::MAX,
    ensures
        offsets_ok(lower_stmts(v, n)),
    decreases v, n,
{
    if n > 0 {
        let code = lower_stmts(v, n);
        let front = lower_stmts(v, n - 1);
        let back = lower_stmt(v[n - 1]);
        law_lowered_offsets(v, n - 1);
        law_lowered_stmt_offsets(v[n - 1]);
        lemma_offsets_embed(code, front, 0, front.len() as int);
        lemma_offsets_embed(code, back, front.len() as int, back.len() as int);
    }
}

/// Offset safety of the code of one statement.
pub proof fn law_lowered_stmt_offsets(s: Statement)
    requires
        lower_stmt(s).len() <= isize::MAX,
    ensures
        offsets_ok(lower_stmt(s)),
    decreases s, 0int,
{
    let code = lower_stmt(s);
    match s {
        Statement::WhileLoop { condition, block } => {
            let body = lower(block@);
            law_lowered_offsets(block@, block@.len() as int);
            lemma_offsets_embed(code, body, 1, body.len() as int);
        },
        Statement::Branch { if_branches, else_branch } => {
            let blocks = guarded_blocks(if_branches@).push(lower(else_branch@));
            lemma_link_len(blocks, blocks.len() as int, 0);
            assert forall|j: int| 0 <= j < blocks.len() implies offsets_within(
                #[trigger] blocks[j],
                blocks[j].len() as int + 1,
            ) by {
                lemma_block_start(blocks, j, blocks.len() as int, 0);
                lemma_block_start(blocks, 0, j, 0);
                if j < if_branches@.len() {
                    let body = lower(if_branches@[j].1@);
                    law_lowered_offsets(if_branches@[j].1@, if_branches@[j].1@.len() as int);
                    lemma_offsets_embed(blocks[j], body, 1, body.len() as int);
                } else {
                    law_lowered_offsets(else_branch@, else_branch@.len() as int);
                }
            }
            lemma_link_offsets(blocks, 0);
        },
        Statement::Match { data, arms, def } => {
            let blocks = arm_blocks(arms@).push(lower(def@));
            let n = blocks.len() as int;
            lemma_link_len(blocks, n, 1);
            assert forall|j: int| 0 <= j < blocks.len() implies offsets_within(
                #[trigger] blocks[j],
                blocks[j].len() as int + 1,
            ) by {
                lemma_block_start(blocks, j, n, 1);
                lemma_block_start(blocks, 0, j, 1);
                if j < arms@.len() {
                    law_lowered_offsets(arms@[j].2@, arms@[j].2@.len() as int);
                } else {
                    law_lowered_offsets(def@, def@.len() as int);
                }
            }
            lemma_link_offsets(blocks, 1);
            let linked = link(blocks, 1);
            lemma_offsets_embed(code, linked, 1, linked.len() as int);
            lemma_arm_table(arms@, arms@.len() as int, blocks);
            let table = arm_table(arms@, arms@.len() as int, blocks);
            lemma_block_start(blocks, arms@.len() as int, n, 1);
            lemma_block_start(blocks, 0, arms@.len() as int, 1);
            assert forall|k: int| 0 <= k < table.len() implies (#[trigger] table[k]).1.offset
                <= code.len() by {
                let a = choose|a: int|
                    0 <= a < arms@.len() && table[k].1.offset == block_start(blocks, a, 1) as usize;
                lemma_block_start(blocks, a, n, 1);
                lemma_block_start(blocks, 0, a, 1);
            }
        },
        _ => {},
    }
}

/// Whether a call has a form that the language knows.
fn check_method(names: &Vec<String>, n_args: usize) -> (ok: bool)
    ensures
        ok == method_ok(names_view(names@), n_args as nat),
{
    assert(names_view(names@).len() == names@.len());
    if names.len() < 1 || names.len() > 3 {
        return false;
    }
    if names.len() == 1 {
        return n_args == 1;
    }
    if names.len() == 2 {
        assert(names_view(names@)[0] == names@[0]@);
        assert(names_view(names@)[1] == names@[1]@);
        if is_name(&names[0], "Set") && is_name(&names[1], "new") {
            return n_args == 0;
        }
    }
    true
}

/// Whether every expression of the list can be lowered.
pub fn check_expressions(v: &Vec<Expression>) -> (ok: bool)
    ensures
        ok == exprs_ok(v@),
    decreases v, 0int,
{
    let n = v.len();
    let mut i: usize = 0;
    while i < n
        invariant
            n == v@.len(),
            i <= n,
            forall|j: int| 0 <= j < i ==> expr_ok(#[trigger] v@[j]),
        decreases n - i,
    {
        if !check_expression(&v[i]) {
            return false;
        }
        i += 1;
    }
    true
}

/// Whether an expression can be lowered: every call in it has a form that
/// the language knows.
#[verifier::loop_isolation(false)]
pub fn check_expression(e: &Expression) -> (ok: bool)
    ensures
        ok == expr_ok(*e),
    decreases *e, 1int,
{
    match e {
        Expression::Method { names, args } => check_method(names, args.len())
            && check_expressions(args),
        Expression::Data { name, fields } => {
            let n = fields.len();
            let mut i: usize = 0;
            while i < n
                invariant
                    n == fields@.len(),
                    i <= n,
                    forall|j: int| 0 <= j < i ==> expr_ok((#[trigger] fields@[j]).1),
                decreases n - i,
            {
                if !check_expression(&fields[i].1) {
                    return false;
                }
                i += 1;
            }
            true
        },
        Expression::Comparison(first, rest) => {
            if !check_expression(&**first) {
                return false;
            }
            let n = rest.len();
            let mut i: usize = 0;
            while i < n
                invariant
                    n == rest@.len(),
                    i <= n,
                    forall|j: int| 0 <= j < i ==> expr_ok((#[trigger] rest@[j]).1),
                decreases n - i,
            {
                if !check_expression(&rest[i].1) {
                    return false;
                }
                i += 1;
            }
            true
        },
        Expression::Add(x, y) => check_expression(&**x) && check_expression(&**y),
        Expression::Sub(x, y) => check_expression(&**x) && check_expression(&**y),
        Expression::Mul(x, y) => check_expression(&**x) && check_expression(&**y),
        Expression::Div(x, y) => check_expression(&**x) && check_expression(&**y),
        Expression::Pow(x, y) => check_expression(&**x) && check_expression(&**y),
        _ => true,
    }
}

/// Which built-in a call that stands alone as a statement is, if it is one:
/// 0 for `print`, 1 for the others, which take one argument.
fn simple_call_kind(names: &Vec<String>) -> (r: Option<u8>)
    ensures
        forall|args: Seq<ExpressionView>|
            r is Some == (#[trigger] simple_call(names_view(names@), args)) is Some,
        forall|n: nat|
            r is Some ==> (#[trigger] simple_call_ok(names_view(names@), n) <==> (r == Some(0u8)
                || n == 1)),
{
    assert(names_view(names@).len() == names@.len());
    if names.len() == 1 {
        assert(names_view(names@)[0] == names@[0]@);
        if is_name(&names[0], "print") {
            return Some(0);
        } else if is_name(&names[0], "wait") {
            return Some(1);
        }
    } else if names.len() == 2 {
        assert(names_view(names@)[0] == names@[0]@);
        assert(names_view(names@)[1] == names@[1]@);
        if is_name(&names[1], "add") || is_name(&names[1], "remove") {
            return Some(1);
        }
    }
    None
}

/// Whether an evaluation can be lowered.
fn check_evaluate(expressions: &Vec<Expression>, results: &Vec<String>) -> (ok: bool)
    ensures
        ok == evaluate_ok(expressions@, results@),
{
    if results.len() != 0 {
        return check_expressions(expressions);
    }
    if expressions.len() != 1 {
        return false;
    }
    match &expressions[0] {
        Expression::Method { names, args } => match simple_call_kind(names) {
            Some(kind) => {
                assert(simple_call(names_view(names@), lower_exprs(args@)) is Some);
                assert(simple_call_ok(names_view(names@), args@.len()) <==> (kind == 0
                    || args@.len() == 1));
                check_expressions(args) && (kind == 0 || args.len() == 1)
            },
            None => {
                assert(simple_call(names_view(names@), lower_exprs(args@)) is None);
                check_expression(&expressions[0])
            },
        },
        _ => check_expression(&expressions[0]),
    }
}

/// Whether every statement of the list can be lowered.
pub fn check_statements(v: &Vec<Statement>) -> (ok: bool)
    ensures
        ok == stmts_ok(v@),
    decreases v, 0int,
{
    let n = v.len();
    let mut i: usize = 0;
    while i < n
        invariant
            n == v@.len(),
            i <= n,
            forall|j: int| 0 <= j < i ==> stmt_ok(#[trigger] v@[j]),
        decreases n - i,
    {
        if !check_statement(&v[i]) {
            return false;
        }
        i += 1;
    }
    true
}

/// Whether a statement can be lowered.
#[verifier::loop_isolation(false)]
pub fn check_statement(s: &Statement) -> (ok: bool)
    ensures
        ok == stmt_ok(*s),
    decreases *s, 1int,
{
    match s {
        Statement::Evaluate { expressions, results } => check_evaluate(expressions, results),
        Statement::State(e) => check_expression(e),
        Statement::WhileLoop { condition, block } => check_expression(condition)
            && check_statements(block),
        Statement::Branch { if_branches, else_branch } => {
            let n = if_branches.len();
            let mut i: usize = 0;
            while i < n
                invariant
                    n == if_branches@.len(),
                    i <= n,
                    forall|j: int| 0 <= j < i ==> expr_ok((#[trigger] if_branches@[j]).0),
                    forall|j: int, k: int|
                        0 <= j < i && 0 <= k < if_branches@[j].1@.len() ==> stmt_ok(
                            #[trigger] if_branches@[j].1@[k],
                        ),
                decreases n - i,
            {
                if !check_expression(&if_branches[i].0) {
                    return false;
                }
                if !check_statements(&if_branches[i].1) {
                    assert(!stmts_ok(if_branches@[i as int].1@));
                    return false;
                }
                i += 1;
            }
            check_statements(else_branch)
        },
        Statement::Match { data, arms, def } => {
            if !check_expression(data) {
                return false;
            }
            let n = arms.len();
            let mut i: usize = 0;
            while i < n
                invariant
                    n == arms@.len(),
                    i <= n,
                    forall|j: int, k: int|
                        0 <= j < i && 0 <= k < arms@[j].2@.len() ==> stmt_ok(
                            #[trigger] arms@[j].2@[k],
                        ),
                decreases n - i,
            {
                if !check_statements(&arms[i].2) {
                    assert(!stmts_ok(arms@[i as int].2@));
                    return false;
                }
                i += 1;
            }
            check_statements(def)
        },
        _ => true,
    }
}

/// The sum of two lengths, where a program counter can count it.
fn add_len(a: usize, b: usize) -> (r: Option<usize>)
    requires
        a <= isize::MAX,
        b <= isize::MAX,
    ensures
        match r {
            Some(n) => n == a + b && n <= isize::MAX,
            None => a + b > isize::MAX,
        },
{
    let limit = isize::MAX as usize;
    if a > limit - b {
        None
    } else {
        Some(a + b)
    }
}

/// The length of the code of a list of statements, where a program counter
/// can count it.
pub fn code_len(v: &Vec<Statement>) -> (r: Option<usize>)
    ensures
        match r {
            Some(n) => n == lower(v@).len() && n <= isize::MAX,
            None => lower(v@).len() > isize::MAX,
        },
    decreases v, 0int,
{
    let n = v.len();
    let mut total: usize = 0;
    let mut i: usize = 0;
    while i < n
        invariant
            n == v@.len(),
            i <= n,
            total == lower_stmts(v@, i as int).len(),
            total <= isize::MAX,
        decreases n - i,
    {
        proof {
            lemma_lower_len(v@, i as int, n as int);
            lemma_lower_len(v@, i as int + 1, n as int);
        }
        let part = match stmt_len(&v[i]) {
            Some(part) => part,
            None => {
                return None;
            },
        };
        total = match add_len(total, part) {
            Some(sum) => sum,
            None => {
                return None;
            },
        };
        i += 1;
    }
    Some(total)
}

/// The length of the code of one statement, where a program counter can
/// count it.
#[verifier::loop_isolation(false)]
pub fn stmt_len(s: &Statement) -> (r: Option<usize>)
    ensures
        match r {
            Some(n) => n == lower_stmt(*s).len() && n <= isize::MAX,
            None => lower_stmt(*s).len() > isize::MAX,
        },
    decreases *s, 1int,
{
    match s {
        Statement::WhileLoop { condition, block } => {
            let body = code_len(block)?;
            add_len(body, 2)
        },
        Statement::Branch { if_branches, else_branch } => {
            let ghost all = guarded_blocks(if_branches@).push(lower(else_branch@));
            proof {
                lemma_link_len(all, all.len() as int, 0);
            }
            let n = if_branches.len();
            let mut total: usize = 0;
            let mut i: usize = 0;
            while i < n
                invariant
                    n == if_branches@.len(),
                    i <= n,
                    total == block_start(all, i as int, 0),
                    total <= isize::MAX,
                decreases n - i,
            {
                proof {
                    lemma_block_start(all, i as int, all.len() as int, 0);
                    lemma_block_start(all, i as int + 1, all.len() as int, 0);
                }
                let body = code_len(&if_branches[i].1)?;
                let block = add_len(body, 2)?;
                total = add_len(total, block)?;
                i += 1;
            }
            proof {
                lemma_block_start(all, n as int, all.len() as int, 0);
            }
            let rest = code_len(else_branch)?;
            let block = add_len(rest, 1)?;
            add_len(total, block)
        },
        Statement::Match { data, arms, def } => {
            let ghost all = arm_blocks(arms@).push(lower(def@));
            proof {
                lemma_link_len(all, all.len() as int, 1);
            }
            let n = arms.len();
            let mut total: usize = 1;
            let mut i: usize = 0;
            while i < n
                invariant
                    n == arms@.len(),
                    i <= n,
                    total == block_start(all, i as int, 1),
                    total <= isize::MAX,
                decreases n - i,
            {
                proof {
                    lemma_block_start(all, i as int, all.len() as int, 1);
                    lemma_block_start(all, i as int + 1, all.len() as int, 1);
                }
                let body = code_len(&arms[i].2)?;
                let block = add_len(body, 1)?;
                total = add_len(total, block)?;
                i += 1;
            }
            proof {
                lemma_block_start(all, n as int, all.len() as int, 1);
            }
            let rest = code_len(def)?;
            let block = add_len(rest, 1)?;
            add_len(total, block)
        },
        _ => Some(1),
    }
}

/// Whether an algorithm can be lowered.
pub fn check_algorithm(alg: &Algorithm) -> (ok: bool)
    ensures
        ok == algorithm_ok(*alg),
{
    check_statements(&alg.steps) && code_len(&alg.steps).is_some()
}

} // verus!
