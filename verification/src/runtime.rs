//! The flat instruction sequences that algorithms are made of.

use vstd::prelude::*;
use crate::ast::CompareOp;
use crate::data::Num;
use crate::prelude::{Dict, Entries};

verus! {

/// Where a tail dispatch goes.
#[derive(Debug)]
pub enum TablePath {
    /// To the object that a variable holds, through the table it is bound to.
    Virtual(String),
    /// To a fresh object of the named type, through the named table.
    Static(String, String),
}

pub enum TablePathView {
    Virtual(Seq<char>),
    Static(Seq<char>, Seq<char>),
}

impl View for TablePath {
    type V = TablePathView;

    open spec fn view(&self) -> TablePathView {
        match self {
            TablePath::Virtual(name) => TablePathView::Virtual(name@),
            TablePath::Static(object_type, table_name) => TablePathView::Static(
                object_type@,
                table_name@,
            ),
        }
    }
}

/// The arithmetic operations, which the host computes.
#[derive(Clone, Copy, PartialEq, Eq, Structural, Debug)]
pub enum ArithOp {
    Add,
    Sub,
    Mul,
    Div,
    Pow,
}

#[derive(Debug)]
pub enum Expression {
    Var(String),
    InitObject { object_type: String, table_name: String, init_name: String, args: Vec<Expression> },
    ExecObject { object_name: String, action_name: String, args: Vec<Expression> },
    InitSet,
    ExternCall { function_name: String, args: Vec<Expression> },
    VirtualizeObject { interface_name: String, object: Box<Expression> },
    SelfObject,
    SelfData,
    Data { name: String, fields: Dict<Expression> },
    Const(Num),
    Comparison(Box<Expression>, Vec<(CompareOp, Expression)>),
    Add(Box<Expression>, Box<Expression>),
    Sub(Box<Expression>, Box<Expression>),
    Mul(Box<Expression>, Box<Expression>),
    Div(Box<Expression>, Box<Expression>),
    Pow(Box<Expression>, Box<Expression>),
}

pub enum ExpressionView {
    Var(Seq<char>),
    InitObject {
        object_type: Seq<char>,
        table_name: Seq<char>,
        init_name: Seq<char>,
        args: Seq<ExpressionView>,
    },
    ExecObject { object_name: Seq<char>, action_name: Seq<char>, args: Seq<ExpressionView> },
    InitSet,
    ExternCall { function_name: Seq<char>, args: Seq<ExpressionView> },
    VirtualizeObject { interface_name: Seq<char>, object: Box<ExpressionView> },
    SelfObject,
    SelfData,
    Data { name: Seq<char>, fields: Entries<ExpressionView> },
    Const(Num),
    Comparison(Box<ExpressionView>, Seq<(CompareOp, ExpressionView)>),
    Arith(ArithOp, Box<ExpressionView>, Box<ExpressionView>),
}

pub open spec fn expr_view(e: Expression) -> ExpressionView
    decreases e,
{
    match e {
        Expression::Var(name) => ExpressionView::Var(name@),
        Expression::InitObject { object_type, table_name, init_name, args } => {
            ExpressionView::InitObject {
                object_type: object_type@,
                table_name: table_name@,
                init_name: init_name@,
                args: exprs_view(args@),
            }
        },
        Expression::ExecObject { object_name, action_name, args } => ExpressionView::ExecObject {
            object_name: object_name@,
            action_name: action_name@,
            args: exprs_view(args@),
        },
        Expression::InitSet => ExpressionView::InitSet,
        Expression::ExternCall { function_name, args } => ExpressionView::ExternCall {
            function_name: function_name@,
            args: exprs_view(args@),
        },
        Expression::VirtualizeObject { interface_name, object } => {
            ExpressionView::VirtualizeObject {
                interface_name: interface_name@,
                object: Box::new(expr_view(*object)),
            }
        },
        Expression::SelfObject => ExpressionView::SelfObject,
        Expression::SelfData => ExpressionView::SelfData,
        Expression::Data { name, fields } => ExpressionView::Data {
            name: name@,
            fields: named_exprs_view(fields.entries@),
        },
        Expression::Const(x) => ExpressionView::Const(x),
        Expression::Comparison(first, rest) => ExpressionView::Comparison(
            Box::new(expr_view(*first)),
            links_view(rest@),
        ),
        Expression::Add(x, y) => ExpressionView::Arith(
            ArithOp::Add,
            Box::new(expr_view(*x)),
            Box::new(expr_view(*y)),
        ),
        Expression::Sub(x, y) => ExpressionView::Arith(
            ArithOp::Sub,
            Box::new(expr_view(*x)),
            Box::new(expr_view(*y)),
        ),
        Expression::Mul(x, y) => ExpressionView::Arith(
            ArithOp::Mul,
            Box::new(expr_view(*x)),
            Box::new(expr_view(*y)),
        ),
        Expression::Div(x, y) => ExpressionView::Arith(
            ArithOp::Div,
            Box::new(expr_view(*x)),
            Box::new(expr_view(*y)),
        ),
        Expression::Pow(x, y) => ExpressionView::Arith(
            ArithOp::Pow,
            Box::new(expr_view(*x)),
            Box::new(expr_view(*y)),
        ),
    }
}

/// The views of a list of expressions.
pub open spec fn exprs_view(v: Seq<Expression>) -> Seq<ExpressionView>
    decreases v,
{
    Seq::new(
        v.len(),
        |i: int|
            if 0 <= i < v.len() {
                expr_view(v[i])
            } else {
                arbitrary()
            },
    )
}

/// The views of the named expressions of a record constructor.
pub open spec fn named_exprs_view(v: Seq<(String, Expression)>) -> Entries<ExpressionView>
    decreases v,
{
    Seq::new(
        v.len(),
        |i: int|
            if 0 <= i < v.len() {
                (v[i].0@, expr_view(v[i].1))
            } else {
                arbitrary()
            },
    )
}

/// The views of the links of a comparison chain.
pub open spec fn links_view(v: Seq<(CompareOp, Expression)>) -> Seq<(CompareOp, ExpressionView)>
    decreases v,
{
    Seq::new(
        v.len(),
        |i: int|
            if 0 <= i < v.len() {
                (v[i].0, expr_view(v[i].1))
            } else {
                arbitrary()
            },
    )
}

impl View for Expression {
    type V = ExpressionView;

    open spec fn view(&self) -> ExpressionView {
        expr_view(*self)
    }
}

/// One instruction.
#[derive(Debug)]
pub enum Statement {
    /// Writes a line of text to the output.
    Debug(String),
    /// Writes the numbers that the expressions give to the output.
    DebugNums(Vec<Expression>),
    /// Evaluates the expressions and binds their values, in order, to the
    /// names.
    Evaluate { expressions: Vec<Expression>, results: Vec<String> },
    /// Makes the record that the expression gives the object's resting state.
    State(Expression),
    /// Suspends the activation for the duration that the expression gives.
    Wait(Expression),
    /// Cancels the object's pending wake-up and clears its bundle.
    CancelWait,
    /// Ends the activation with the values that the expressions give.
    Return(Vec<Expression>),
    /// Skips `break_offset` instructions ahead where the condition is false.
    Branch { condition: Expression, break_offset: usize },
    /// Skips ahead by the offset of the arm whose tag the record has, binding
    /// the arm's fields, or by `default_offset` where no arm has it.
    PatternBranch { data: Expression, arms: Dict<(Vec<String>, usize)>, default_offset: usize },
    /// Goes back by the given number of instructions.
    Continue(usize),
    /// Goes on at the given distance, ahead or back.
    Jump(isize),
    /// Hands the activation over to another object.
    GotoAlg { table: TablePath, alg_name: String, args: Vec<Expression> },
    SetAdd { set_name: String, to_add: Expression },
    SetRemove { set_name: String, to_remove: Expression },
    /// Runs the instructions that follow once for each member of a set, and
    /// goes on `break_offset` instructions ahead.
    SetIterate { var_name: String, set_name: String, break_offset: usize },
    /// Ends one round of the body of a `SetIterate`.
    ContinueLoop,
}

/// An arm of a pattern branch: the fields to bind and the distance to the
/// arm's block.
pub struct ArmView {
    pub fields: Seq<Seq<char>>,
    pub offset: usize,
}

pub enum StatementView {
    Debug(Seq<char>),
    DebugNums(Seq<ExpressionView>),
    Evaluate { expressions: Seq<ExpressionView>, results: Seq<Seq<char>> },
    State(ExpressionView),
    Wait(ExpressionView),
    CancelWait,
    Return(Seq<ExpressionView>),
    Branch { condition: ExpressionView, break_offset: usize },
    PatternBranch { data: ExpressionView, arms: Entries<ArmView>, default_offset: usize },
    Continue(usize),
    Jump(isize),
    GotoAlg { table: TablePathView, alg_name: Seq<char>, args: Seq<ExpressionView> },
    SetAdd { set_name: Seq<char>, to_add: ExpressionView },
    SetRemove { set_name: Seq<char>, to_remove: ExpressionView },
    SetIterate { var_name: Seq<char>, set_name: Seq<char>, break_offset: usize },
    ContinueLoop,
}

/// The characters of each of a list of names.
pub open spec fn names_view(v: Seq<String>) -> Seq<Seq<char>> {
    Seq::new(v.len(), |i: int| v[i]@)
}

/// The views of the arms of a pattern branch.
pub open spec fn arms_view(v: Entries<(Vec<String>, usize)>) -> Entries<ArmView> {
    Seq::new(
        v.len(),
        |i: int| (v[i].0, ArmView { fields: names_view(v[i].1.0@), offset: v[i].1.1 }),
    )
}

impl View for Statement {
    type V = StatementView;

    open spec fn view(&self) -> StatementView {
        match self {
            Statement::Debug(text) => StatementView::Debug(text@),
            Statement::DebugNums(exprs) => StatementView::DebugNums(exprs_view(exprs@)),
            Statement::Evaluate { expressions, results } => StatementView::Evaluate {
                expressions: exprs_view(expressions@),
                results: names_view(results@),
            },
            Statement::State(e) => StatementView::State(e@),
            Statement::Wait(e) => StatementView::Wait(e@),
            Statement::CancelWait => StatementView::CancelWait,
            Statement::Return(exprs) => StatementView::Return(exprs_view(exprs@)),
            Statement::Branch { condition, break_offset } => StatementView::Branch {
                condition: condition@,
                break_offset: *break_offset,
            },
            Statement::PatternBranch { data, arms, default_offset } => {
                StatementView::PatternBranch {
                    data: data@,
                    arms: arms_view(arms@),
                    default_offset: *default_offset,
                }
            },
            Statement::Continue(back) => StatementView::Continue(*back),
            Statement::Jump(skip) => StatementView::Jump(*skip),
            Statement::GotoAlg { table, alg_name, args } => StatementView::GotoAlg {
                table: table@,
                alg_name: alg_name@,
                args: exprs_view(args@),
            },
            Statement::SetAdd { set_name, to_add } => StatementView::SetAdd {
                set_name: set_name@,
                to_add: to_add@,
            },
            Statement::SetRemove { set_name, to_remove } => StatementView::SetRemove {
                set_name: set_name@,
                to_remove: to_remove@,
            },
            Statement::SetIterate { var_name, set_name, break_offset } => {
                StatementView::SetIterate {
                    var_name: var_name@,
                    set_name: set_name@,
                    break_offset: *break_offset,
                }
            },
            Statement::ContinueLoop => StatementView::ContinueLoop,
        }
    }
}

/// The views of a sequence of instructions.
pub open spec fn code_view(v: Seq<Statement>) -> Seq<StatementView> {
    Seq::new(v.len(), |i: int| v[i]@)
}

/// A procedure: the names of its parameters and its instructions.
#[derive(Debug)]
pub struct Algorithm {
    pub param_list: Vec<String>,
    pub steps: Vec<Statement>,
}

pub struct AlgorithmView {
    pub param_list: Seq<Seq<char>>,
    pub steps: Seq<StatementView>,
}

impl View for Algorithm {
    type V = AlgorithmView;

    open spec fn view(&self) -> AlgorithmView {
        AlgorithmView { param_list: names_view(self.param_list@), steps: code_view(self.steps@) }
    }
}

/// Whether the instruction `st`, standing at `at`, leads to a place from 0
/// to `limit` whichever way it goes.
pub open spec fn offset_within(st: StatementView, at: int, limit: int) -> bool {
    match st {
        StatementView::Branch { break_offset, .. } => at + break_offset <= limit,
        StatementView::PatternBranch { arms, default_offset, .. } => {
            &&& at + default_offset <= limit
            &&& forall|k: int| 0 <= k < arms.len() ==> at + (#[trigger] arms[k]).1.offset <= limit
        },
        StatementView::Continue(back) => back <= at,
        StatementView::Jump(skip) => 0 <= at + skip <= limit,
        StatementView::SetIterate { break_offset, .. } => at + break_offset <= limit,
        _ => true,
    }
}

/// Whether every instruction of `code` leads to a place from 0 to `limit`.
pub open spec fn offsets_within(code: Seq<StatementView>, limit: int) -> bool {
    forall|i: int| 0 <= i < code.len() ==> offset_within(#[trigger] code[i], i, limit)
}

/// Whether every offset of `code`, once applied, gives a program counter from
/// 0 to the length of the code.
pub open spec fn offsets_ok(code: Seq<StatementView>) -> bool {
    offsets_within(code, code.len() as int)
}

} // verus!
