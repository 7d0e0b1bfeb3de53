//! The abstract syntax tree: tagged unions for expressions and statements.
//!
//! The tree is pure data with exclusive ownership of children and no
//! behavior; parser output and evaluator input agree on it. Each node kind
//! has a model counterpart (`ExprModel`, `StmtModel`) in which numbers are
//! unbounded integers and names and string literals are character
//! sequences; contracts speak about the models.

use vstd::prelude::*;

verus! {

#[derive(Debug, PartialEq, Eq, Structural, Copy, Clone)]
pub enum UnaryOperator {
    Not,
    Minus,
}

#[derive(Debug, PartialEq, Eq, Structural, Copy, Clone)]
pub enum BinaryOperator {
    Slash,
    Star,
    Plus,
    Minus,
    Greater,
    GreaterEqual,
    Less,
    LessEqual,
    EqualEqual,
    NotEqual,
}

#[derive(Debug, PartialEq, Eq, Structural, Copy, Clone)]
pub enum LogicalOperator {
    And,
    Or,
}

/// An expression node. Every composite node exclusively owns its children.
#[derive(Debug, PartialEq)]
pub enum Expr {
    Binary(Box<Expr>, BinaryOperator, Box<Expr>),
    Logical(Box<Expr>, LogicalOperator, Box<Expr>),
    Unary(UnaryOperator, Box<Expr>),
    Number(i64),
    Boolean(bool),
    Nil,
    String(String),
    Variable(String),
    Assignment(String, Box<Expr>),
}

/// A statement node.
#[derive(Debug, PartialEq)]
pub enum Stmt {
    Block(Vec<Stmt>),
    Expr(Expr),
    If(Expr, Box<Stmt>, Option<Box<Stmt>>),
    Let(String, Option<Expr>),
    Print(Expr),
}

/// A program: its statements in order.
pub type Ast = Vec<Stmt>;

/// The model of an expression.
pub enum ExprModel {
    Binary(Box<ExprModel>, BinaryOperator, Box<ExprModel>),
    Logical(Box<ExprModel>, LogicalOperator, Box<ExprModel>),
    Unary(UnaryOperator, Box<ExprModel>),
    Number(int),
    Boolean(bool),
    Nil,
    Str(Seq<char>),
    Variable(Seq<char>),
    Assignment(Seq<char>, Box<ExprModel>),
}

/// The model of a statement.
pub enum StmtModel {
    Block(Seq<StmtModel>),
    Expr(ExprModel),
    If(ExprModel, Box<StmtModel>, Option<Box<StmtModel>>),
    Let(Seq<char>, Option<ExprModel>),
    Print(ExprModel),
}

pub open spec fn expr_model(e: Expr) -> ExprModel
    decreases e,
{
    match e {
        Expr::Binary(l, op, r) => ExprModel::Binary(
            Box::new(expr_model(*l)),
            op,
            Box::new(expr_model(*r)),
        ),
        Expr::Logical(l, op, r) => ExprModel::Logical(
            Box::new(expr_model(*l)),
            op,
            Box::new(expr_model(*r)),
        ),
        Expr::Unary(op, e) => ExprModel::Unary(op, Box::new(expr_model(*e))),
        Expr::Number(n) => ExprModel::Number(n as int),
        Expr::Boolean(b) => ExprModel::Boolean(b),
        Expr::Nil => ExprModel::Nil,
        Expr::String(s) => ExprModel::Str(s@),
        Expr::Variable(name) => ExprModel::Variable(name@),
        Expr::Assignment(name, e) => ExprModel::Assignment(name@, Box::new(expr_model(*e))),
    }
}

pub open spec fn stmt_model(s: Stmt) -> StmtModel
    decreases s,
{
    match s {
        Stmt::Block(stmts) => StmtModel::Block(stmts_model(stmts@)),
        Stmt::Expr(e) => StmtModel::Expr(expr_model(e)),
        Stmt::If(c, t, e) => StmtModel::If(
            expr_model(c),
            Box::new(stmt_model(*t)),
            match e {
                Some(s) => Some(Box::new(stmt_model(*s))),
                None => None,
            },
        ),
        Stmt::Let(name, init) => StmtModel::Let(
            name@,
            match init {
                Some(e) => Some(expr_model(e)),
                None => None,
            },
        ),
        Stmt::Print(e) => StmtModel::Print(expr_model(e)),
    }
}

pub open spec fn stmts_model(stmts: Seq<Stmt>) -> Seq<StmtModel>
    decreases stmts,
{
    if stmts.len() == 0 {
        Seq::empty()
    } else {
        seq![stmt_model(stmts[0])] + stmts_model(stmts.drop_first())
    }
}

impl View for Expr {
    type V = ExprModel;

    open spec fn view(&self) -> ExprModel {
        expr_model(*self)
    }
}

impl View for Stmt {
    type V = StmtModel;

    open spec fn view(&self) -> StmtModel {
        stmt_model(*self)
    }
}

/// Unfolds the model of a statement sequence one element at a time; the
/// evaluator's loop steps through programs with it.
pub proof fn lemma_stmts_model_index(stmts: Seq<Stmt>, i: int)
    requires
        0 <= i < stmts.len(),
    ensures
        stmts_model(stmts).len() == stmts.len(),
        stmts_model(stmts)[i] == stmt_model(stmts[i]),
    decreases stmts.len(),
{
    if i > 0 {
        lemma_stmts_model_index(stmts.drop_first(), i - 1);
    } else {
        lemma_stmts_model_len(stmts);
    }
    lemma_stmts_model_len(stmts);
}

pub proof fn lemma_stmts_model_push(stmts: Seq<Stmt>, s: Stmt)
    ensures
        stmts_model(stmts.push(s)) == stmts_model(stmts).push(stmt_model(s)),
    decreases stmts.len(),
{
    if stmts.len() == 0 {
        reveal_with_fuel(stmts_model, 2);
        assert(stmts.push(s).drop_first() =~= Seq::<Stmt>::empty());
        assert(stmts_model(stmts.push(s)) =~= stmts_model(stmts).push(stmt_model(s)));
    } else {
        assert(stmts.push(s).drop_first() =~= stmts.drop_first().push(s));
        lemma_stmts_model_push(stmts.drop_first(), s);
        lemma_stmts_model_len(stmts);
        lemma_stmts_model_len(stmts.drop_first());
        assert(stmts.push(s)[0] == stmts[0]);
        assert(stmts_model(stmts.push(s)) =~= stmts_model(stmts).push(stmt_model(s)));
    }
}

pub proof fn lemma_stmts_model_len(stmts: Seq<Stmt>)
    ensures
        stmts_model(stmts).len() == stmts.len(),
    decreases stmts.len(),
{
    if stmts.len() > 0 {
        lemma_stmts_model_len(stmts.drop_first());
    }
}

} // verus!
