//! The tree-walking evaluator: executes a statement sequence against one
//! environment, collecting printed lines, and isolates the failure of one
//! top-level statement from the statements after it.
//!
//! The semantics is the recursive model `eval_expr_model` /
//! `exec_stmt_model` / `run_from`; every executable method is proved to
//! compute exactly what the model says. Conditions of `if` must be
//! booleans — any other condition value is a type error, never coerced.
//! `and` returns its left operand without touching the right one when the
//! left is exactly `false`; `or` does the same on exactly `true`; any other
//! left value falls through to the right operand.

use vstd::prelude::*;

use crate::ast::BinaryOperator;
use crate::ast::ExprModel;
use crate::ast::LogicalOperator;
use crate::ast::StmtModel;
use crate::ast::UnaryOperator;
use crate::ast::Expr;
use crate::ast::Stmt;
use crate::ast::lemma_stmts_model_index;
use crate::ast::lemma_stmts_model_len;
use crate::ast::stmts_model;
use crate::environment::BindingState;
use crate::lexer::lex;
use crate::lexer::tokens_model;
use crate::token::Token;
use crate::token::WithSpan;
use crate::environment::EnvModel;
use crate::environment::Environment;
use crate::environment::env_assign;
use crate::environment::env_binds;
use crate::environment::env_define;
use crate::environment::env_resolve;
use crate::value::RuntimeError;
use crate::value::Value;
use crate::value::ValueModel;
use crate::value::render_model;
use crate::value::spec_add;
use crate::value::spec_div;
use crate::value::spec_ge;
use crate::value::spec_gt;
use crate::value::spec_le;
use crate::value::spec_lt;
use crate::value::spec_mul;
use crate::value::spec_neg;
use crate::value::spec_not;
use crate::value::spec_sub;

verus! {

/// What a binary operator yields on two already-evaluated operands.
pub open spec fn apply_binary_model(op: BinaryOperator, l: ValueModel, r: ValueModel) -> Result<
    ValueModel,
    RuntimeError,
> {
    match op {
        BinaryOperator::Slash => spec_div(l, r),
        BinaryOperator::Star => spec_mul(l, r),
        BinaryOperator::Plus => spec_add(l, r),
        BinaryOperator::Minus => spec_sub(l, r),
        BinaryOperator::Greater => Ok(ValueModel::Bool(spec_gt(l, r))),
        BinaryOperator::GreaterEqual => Ok(ValueModel::Bool(spec_ge(l, r))),
        BinaryOperator::Less => Ok(ValueModel::Bool(spec_lt(l, r))),
        BinaryOperator::LessEqual => Ok(ValueModel::Bool(spec_le(l, r))),
        BinaryOperator::EqualEqual => Ok(ValueModel::Bool(l == r)),
        BinaryOperator::NotEqual => Ok(ValueModel::Bool(l != r)),
    }
}

/// What a unary operator yields on its evaluated operand.
pub open spec fn apply_unary_model(op: UnaryOperator, v: ValueModel) -> Result<
    ValueModel,
    RuntimeError,
> {
    match op {
        UnaryOperator::Not => spec_not(v),
        UnaryOperator::Minus => spec_neg(v),
    }
}

/// Evaluating an expression: the environment after the evaluation and the
/// value or error it yields. Operands evaluate left before right; an error
/// keeps the environment changes made before it arose.
pub open spec fn eval_expr_model(env: EnvModel, e: ExprModel) -> (EnvModel, Result<
    ValueModel,
    RuntimeError,
>)
    decreases e,
{
    match e {
        ExprModel::Number(n) => (env, Ok(ValueModel::Num(n))),
        ExprModel::Boolean(b) => (env, Ok(ValueModel::Bool(b))),
        ExprModel::Nil => (env, Ok(ValueModel::Nil)),
        ExprModel::Str(s) => (env, Ok(ValueModel::Str(s))),
        ExprModel::Variable(name) => (
            env,
            match env_resolve(env, name) {
                BindingState::Initialized(v) => Ok(v),
                BindingState::Declared => Err(RuntimeError::UninitializedVariable),
                BindingState::Unbound => Err(RuntimeError::UndefinedVariable),
            },
        ),
        ExprModel::Assignment(name, e) => {
            let (env1, r) = eval_expr_model(env, *e);
            match r {
                Ok(v) => if env_binds(env1, name) {
                    (env_assign(env1, name, v), Ok(v))
                } else {
                    (env1, Err(RuntimeError::UndefinedVariable))
                },
                Err(er) => (env1, Err(er)),
            }
        },
        ExprModel::Unary(op, e) => {
            let (env1, r) = eval_expr_model(env, *e);
            match r {
                Ok(v) => (env1, apply_unary_model(op, v)),
                Err(er) => (env1, Err(er)),
            }
        },
        ExprModel::Binary(l, op, r) => {
            let (env1, rl) = eval_expr_model(env, *l);
            match rl {
                Ok(vl) => {
                    let (env2, rr) = eval_expr_model(env1, *r);
                    match rr {
                        Ok(vr) => (env2, apply_binary_model(op, vl, vr)),
                        Err(er) => (env2, Err(er)),
                    }
                },
                Err(er) => (env1, Err(er)),
            }
        },
        ExprModel::Logical(l, op, r) => {
            let (env1, rl) = eval_expr_model(env, *l);
            match rl {
                Ok(vl) => if (op == LogicalOperator::And && vl == ValueModel::Bool(false)) || (op
                    == LogicalOperator::Or && vl == ValueModel::Bool(true)) {
                    (env1, Ok(vl))
                } else {
                    eval_expr_model(env1, *r)
                },
                Err(er) => (env1, Err(er)),
            }
        },
    }
}

/// Executing one statement: the environment after it, the lines it printed
/// in order, and success or the error that stopped it. A block pushes a
/// scope, runs its statements until the first error, and pops the scope on
/// every exit path.
pub open spec fn exec_stmt_model(env: EnvModel, s: StmtModel) -> (EnvModel, Seq<Seq<char>>, Result<
    (),
    RuntimeError,
>)
    decreases s,
{
    match s {
        StmtModel::Expr(e) => {
            let (env1, r) = eval_expr_model(env, e);
            (
                env1,
                Seq::empty(),
                match r {
                    Ok(_) => Ok(()),
                    Err(er) => Err(er),
                },
            )
        },
        StmtModel::Print(e) => {
            let (env1, r) = eval_expr_model(env, e);
            match r {
                Ok(v) => (env1, seq![render_model(v)], Ok(())),
                Err(er) => (env1, Seq::empty(), Err(er)),
            }
        },
        StmtModel::Let(name, init) => match init {
            Some(e) => {
                let (env1, r) = eval_expr_model(env, e);
                match r {
                    Ok(v) => (env_define(env1, name, Some(v)), Seq::empty(), Ok(())),
                    Err(er) => (env1, Seq::empty(), Err(er)),
                }
            },
            None => (env_define(env, name, None), Seq::empty(), Ok(())),
        },
        StmtModel::If(c, t, e) => {
            let (env1, r) = eval_expr_model(env, c);
            match r {
                Ok(ValueModel::Bool(true)) => exec_stmt_model(env1, *t),
                Ok(ValueModel::Bool(false)) => match e {
                    Some(s) => exec_stmt_model(env1, *s),
                    None => (env1, Seq::empty(), Ok(())),
                },
                Ok(_) => (env1, Seq::empty(), Err(RuntimeError::TypeError)),
                Err(er) => (env1, Seq::empty(), Err(er)),
            }
        },
        StmtModel::Block(stmts) => {
            let (env1, out, r) = exec_stmts_from(env.push(Map::empty()), stmts, 0);
            (env1.drop_last(), out, r)
        },
    }
}

/// Executing the statements of one block from index `i` on, stopping at
/// the first error.
pub open spec fn exec_stmts_from(env: EnvModel, stmts: Seq<StmtModel>, i: int) -> (
    EnvModel,
    Seq<Seq<char>>,
    Result<(), RuntimeError>,
)
    decreases stmts, stmts.len() - i,
{
    if 0 <= i < stmts.len() {
        let (env1, out1, r) = exec_stmt_model(env, stmts[i]);
        match r {
            Ok(_) => {
                let (env2, out2, r2) = exec_stmts_from(env1, stmts, i + 1);
                (env2, out1 + out2, r2)
            },
            Err(er) => (env1, out1, Err(er)),
        }
    } else {
        (env, Seq::empty(), Ok(()))
    }
}

/// The line a failed top-level statement reports.
pub open spec fn error_line(e: RuntimeError) -> Seq<char> {
    "RuntimeErr: "@ + e.spec_message()
}

/// Running a program from statement `i` on: every top-level statement
/// executes; one that fails appends its report and does not stop the
/// statements after it.
pub open spec fn run_from(env: EnvModel, stmts: Seq<StmtModel>, i: int) -> (EnvModel, Seq<
    Seq<char>,
>)
    decreases stmts.len() - i,
{
    if 0 <= i < stmts.len() {
        let (env1, out1, r) = exec_stmt_model(env, stmts[i]);
        let reported = match r {
            Ok(_) => out1,
            Err(er) => out1 + seq![error_line(er)],
        };
        let (env2, out2) = run_from(env1, stmts, i + 1);
        (env2, reported + out2)
    } else {
        (env, Seq::empty())
    }
}

/// The views of a sequence of printed lines.
pub open spec fn lines_model(v: Seq<String>) -> Seq<Seq<char>> {
    v.map_values(|s: String| s@)
}

proof fn lemma_env_assign_len(env: EnvModel, name: Seq<char>, v: ValueModel)
    ensures
        env_assign(env, name, v).len() == env.len(),
    decreases env.len(),
{
    if env.len() > 0 && !env.last().dom().contains(name) {
        lemma_env_assign_len(env.drop_last(), name, v);
    }
}

/// Evaluation never changes how many scopes are open.
pub proof fn lemma_eval_preserves_depth(env: EnvModel, e: ExprModel)
    ensures
        eval_expr_model(env, e).0.len() == env.len(),
    decreases e,
{
    match e {
        ExprModel::Assignment(name, e) => {
            lemma_eval_preserves_depth(env, *e);
            let (env1, r) = eval_expr_model(env, *e);
            if r is Ok && env_binds(env1, name) {
                lemma_env_assign_len(env1, name, r->Ok_0);
            }
        },
        ExprModel::Unary(_op, e) => {
            lemma_eval_preserves_depth(env, *e);
        },
        ExprModel::Binary(l, _op, r) => {
            lemma_eval_preserves_depth(env, *l);
            lemma_eval_preserves_depth(eval_expr_model(env, *l).0, *r);
        },
        ExprModel::Logical(l, _op, r) => {
            lemma_eval_preserves_depth(env, *l);
            lemma_eval_preserves_depth(eval_expr_model(env, *l).0, *r);
        },
        _ => {},
    }
}

/// A statement leaves as many scopes open as it found: blocks pop what
/// they push, on success and on error alike.
pub proof fn lemma_stmt_preserves_depth(env: EnvModel, s: StmtModel)
    ensures
        exec_stmt_model(env, s).0.len() == env.len(),
    decreases s, 0nat,
{
    match s {
        StmtModel::Expr(e) => {
            lemma_eval_preserves_depth(env, e);
        },
        StmtModel::Print(e) => {
            lemma_eval_preserves_depth(env, e);
        },
        StmtModel::Let(_name, init) => {
            if init is Some {
                lemma_eval_preserves_depth(env, init->0);
            }
        },
        StmtModel::If(c, t, e) => {
            lemma_eval_preserves_depth(env, c);
            let env1 = eval_expr_model(env, c).0;
            lemma_stmt_preserves_depth(env1, *t);
            if e is Some {
                lemma_stmt_preserves_depth(env1, *e->0);
            }
        },
        StmtModel::Block(stmts) => {
            lemma_stmts_preserve_depth(env.push(Map::empty()), stmts, 0);
        },
    }
}

proof fn lemma_stmts_preserve_depth(env: EnvModel, stmts: Seq<StmtModel>, i: int)
    ensures
        exec_stmts_from(env, stmts, i).0.len() == env.len(),
    decreases stmts, stmts.len() - i + 1,
{
    if 0 <= i < stmts.len() {
        lemma_stmt_preserves_depth(env, stmts[i]);
        let (env1, _out, r) = exec_stmt_model(env, stmts[i]);
        if r is Ok {
            lemma_stmts_preserve_depth(env1, stmts, i + 1);
        }
    }
}

/// The interpreter: one environment driven over a program's statements.
pub struct Interpreter {
    envs: Environment,
}

impl Interpreter {
    /// The environment's model, for contracts.
    pub closed spec fn env(self) -> EnvModel {
        self.envs@
    }

    /// A fresh interpreter holding only the global scope.
    pub fn new() -> (r: Self)
        ensures
            r.env() =~= seq![Map::<Seq<char>, Option<ValueModel>>::empty()],
    {
        Interpreter { envs: Environment::new() }
    }

    /// Evaluates one expression to a value, or to the error that stopped
    /// it, exactly as `eval_expr_model` says.
    pub fn evaluate(&mut self, expr: &Expr) -> (r: Result<Value, RuntimeError>)
        ensures
            ({
                let (envm, rm) = eval_expr_model(old(self).env(), expr@);
                final(self).env() == envm && crate::value::result_model(r) == rm
            }),
        decreases expr,
    {
        match expr {
            Expr::Number(n) => Ok(Value::Num(*n)),
            Expr::Boolean(b) => Ok(Value::Bool(*b)),
            Expr::Nil => Ok(Value::Nil),
            Expr::String(s) => Ok(Value::String(s.clone())),
            Expr::Variable(name) => self.envs.get_var(name),
            Expr::Assignment(name, e) => {
                match self.evaluate(e) {
                    Ok(v) => self.envs.assign_var(name, v),
                    Err(er) => Err(er),
                }
            },
            Expr::Unary(op, e) => {
                match self.evaluate(e) {
                    Ok(v) => match op {
                        UnaryOperator::Not => v.not(),
                        UnaryOperator::Minus => v.neg(),
                    },
                    Err(er) => Err(er),
                }
            },
            Expr::Binary(l, op, r) => {
                match self.evaluate(l) {
                    Ok(vl) => match self.evaluate(r) {
                        Ok(vr) => apply_binary(*op, &vl, &vr),
                        Err(er) => Err(er),
                    },
                    Err(er) => Err(er),
                }
            },
            Expr::Logical(l, op, r) => {
                match self.evaluate(l) {
                    Ok(vl) => {
                        let short = match (op, &vl) {
                            (LogicalOperator::And, Value::Bool(false)) => true,
                            (LogicalOperator::Or, Value::Bool(true)) => true,
                            _ => false,
                        };
                        if short {
                            Ok(vl)
                        } else {
                            self.evaluate(r)
                        }
                    },
                    Err(er) => Err(er),
                }
            },
        }
    }
}

impl Interpreter {
    /// Executes one statement, appending the lines it prints to `out`,
    /// exactly as `exec_stmt_model` says.
    pub fn run(&mut self, stmt: &Stmt, out: &mut Vec<String>) -> (r: Result<(), RuntimeError>)
        requires
            old(self).env().len() >= 1,
        ensures
            ({
                let (envm, outm, rm) = exec_stmt_model(old(self).env(), stmt@);
                final(self).env() == envm && lines_model(final(out)@) == lines_model(old(out)@)
                    + outm && r == rm
            }),
        decreases stmt,
    {
        let ghost out0 = out@;
        match stmt {
            Stmt::Expr(e) => {
                proof {
                    assert(lines_model(out0) =~= lines_model(out0) + Seq::<Seq<char>>::empty());
                }
                match self.evaluate(e) {
                    Ok(_) => Ok(()),
                    Err(er) => Err(er),
                }
            },
            Stmt::Print(e) => {
                match self.evaluate(e) {
                    Ok(v) => {
                        let line = v.render();
                        out.push(line);
                        proof {
                            assert(lines_model(out@) =~= lines_model(out0) + seq![
                                render_model(v@),
                            ]);
                        }
                        Ok(())
                    },
                    Err(er) => {
                        proof {
                            assert(lines_model(out0) =~= lines_model(out0)
                                + Seq::<Seq<char>>::empty());
                        }
                        Err(er)
                    },
                }
            },
            Stmt::Let(name, init) => {
                proof {
                    assert(lines_model(out0) =~= lines_model(out0) + Seq::<Seq<char>>::empty());
                }
                match init {
                    Some(e) => match self.evaluate(e) {
                        Ok(v) => {
                            proof {
                                lemma_eval_preserves_depth(old(self).env(), e@);
                            }
                            self.envs.define_var(name.clone(), Some(v));
                            Ok(())
                        },
                        Err(er) => Err(er),
                    },
                    None => {
                        self.envs.define_var(name.clone(), None);
                        Ok(())
                    },
                }
            },
            Stmt::If(c, t, e) => {
                match self.evaluate(c) {
                    Ok(v) => {
                        proof {
                            lemma_eval_preserves_depth(old(self).env(), c@);
                        }
                        match v {
                            Value::Bool(b) => {
                                if b {
                                    self.run(t, out)
                                } else {
                                    match e {
                                        Some(s) => self.run(s, out),
                                        None => {
                                            proof {
                                                assert(lines_model(out0) =~= lines_model(out0)
                                                    + Seq::<Seq<char>>::empty());
                                            }
                                            Ok(())
                                        },
                                    }
                                }
                            },
                            _ => {
                                proof {
                                    assert(lines_model(out0) =~= lines_model(out0)
                                        + Seq::<Seq<char>>::empty());
                                }
                                Err(RuntimeError::TypeError)
                            },
                        }
                    },
                    Err(er) => {
                        proof {
                            assert(lines_model(out0) =~= lines_model(out0)
                                + Seq::<Seq<char>>::empty());
                        }
                        Err(er)
                    },
                }
            },
            Stmt::Block(stmts) => {
                self.envs.begin_scope();
                let r = self.run_block(stmts, out);
                proof {
                    lemma_stmts_preserve_depth(
                        old(self).env().push(Map::empty()),
                        stmts_model(stmts@),
                        0,
                    );
                }
                self.envs.end_scope();
                r
            },
        }
    }

    /// Executes the statements of one block in order, stopping at the
    /// first error; the caller pushes and pops the block's scope.
    fn run_block(&mut self, stmts: &Vec<Stmt>, out: &mut Vec<String>) -> (r: Result<
        (),
        RuntimeError,
    >)
        requires
            old(self).env().len() >= 1,
        ensures
            ({
                let (envm, outm, rm) = exec_stmts_from(old(self).env(), stmts_model(stmts@), 0);
                final(self).env() == envm && lines_model(final(out)@) == lines_model(old(out)@)
                    + outm && r == rm
            }),
        decreases stmts,
    {
        let ghost env0 = self.env();
        let ghost sm = stmts_model(stmts@);
        let ghost out0 = out@;
        proof {
            lemma_stmts_model_len(stmts@);
        }
        let mut i: usize = 0;
        while i < stmts.len()
            invariant
                i <= stmts.len(),
                env0 == old(self).env(),
                out0 == old(out)@,
                sm == stmts_model(stmts@),
                sm.len() == stmts@.len(),
                self.env().len() >= 1,
                lines_model(out0).len() <= lines_model(out@).len(),
                lines_model(out@).subrange(0, lines_model(out0).len() as int) == lines_model(out0),
                ({
                    let full = exec_stmts_from(env0, sm, 0);
                    let rem = exec_stmts_from(self.env(), sm, i as int);
                    full.0 == rem.0 && full.1 == lines_model(out@).skip(
                        lines_model(out0).len() as int,
                    ) + rem.1 && full.2 == rem.2
                }),
            decreases stmts.len() - i,
        {
            let ghost env_before = self.env();
            let ghost out_before = out@;
            proof {
                lemma_stmts_model_index(stmts@, i as int);
            }
            let r = self.run(&stmts[i], out);
            proof {
                lemma_stmt_preserves_depth(env_before, sm[i as int]);
                let k0 = lines_model(out0).len() as int;
                let kb = lines_model(out_before).len() as int;
                let step = exec_stmt_model(env_before, sm[i as int]);
                assert((lines_model(out_before) + step.1).skip(kb) =~= step.1);
                assert(lines_model(out@).skip(kb) == step.1);
                assert(lines_model(out@).skip(k0) =~= lines_model(out_before).skip(k0) + step.1);
                assert(lines_model(out@).subrange(0, k0) =~= lines_model(out_before).subrange(
                    0,
                    k0,
                ));
                assert(lines_model(out@) =~= lines_model(out0) + lines_model(out@).skip(k0));
                if step.2 is Ok {
                    let rem_next = exec_stmts_from(self.env(), sm, i + 1);
                    assert(lines_model(out_before).skip(k0) + (step.1 + rem_next.1)
                        =~= lines_model(out@).skip(k0) + rem_next.1);
                }
            }
            match r {
                Ok(_) => {},
                Err(er) => {
                    return Err(er);
                },
            }
            i = i + 1;
        }
        proof {
            assert(lines_model(out@).skip(lines_model(out0).len() as int) + Seq::<
                Seq<char>,
            >::empty() =~= lines_model(out@).skip(lines_model(out0).len() as int));
            assert(lines_model(out@) =~= lines_model(out0) + lines_model(out@).skip(
                lines_model(out0).len() as int,
            ));
        }
        Ok(())
    }
}

impl Interpreter {
    /// Runs a whole program: every top-level statement executes in order;
    /// one that fails appends its report to the output and the statements
    /// after it still run, exactly as `run_from` says.
    pub fn run_program(&mut self, program: &Vec<Stmt>) -> (out: Vec<String>)
        requires
            old(self).env().len() >= 1,
        ensures
            ({
                let (envm, outm) = run_from(old(self).env(), stmts_model(program@), 0);
                final(self).env() == envm && lines_model(out@) == outm
            }),
    {
        let ghost env0 = self.env();
        let ghost sm = stmts_model(program@);
        proof {
            lemma_stmts_model_len(program@);
        }
        let mut out: Vec<String> = Vec::new();
        let mut i: usize = 0;
        while i < program.len()
            invariant
                i <= program.len(),
                env0 == old(self).env(),
                sm == stmts_model(program@),
                sm.len() == program@.len(),
                self.env().len() >= 1,
                ({
                    let full = run_from(env0, sm, 0);
                    let rem = run_from(self.env(), sm, i as int);
                    full.0 == rem.0 && full.1 == lines_model(out@) + rem.1
                }),
            decreases program.len() - i,
        {
            let ghost env_before = self.env();
            let ghost out_before = out@;
            proof {
                lemma_stmts_model_index(program@, i as int);
            }
            let r = self.run(&program[i], &mut out);
            let ghost out_run = out@;
            match r {
                Ok(_) => {},
                Err(er) => {
                    let line = String::from_str("RuntimeErr: ").concat(er.message().as_str());
                    proof {
                        assert(line@ == error_line(er));
                    }
                    out.push(line);
                },
            }
            proof {
                lemma_stmt_preserves_depth(env_before, sm[i as int]);
                let step = exec_stmt_model(env_before, sm[i as int]);
                let reported = match step.2 {
                    Ok(_) => step.1,
                    Err(er) => step.1 + seq![error_line(er)],
                };
                assert(lines_model(out_run) == lines_model(out_before) + step.1);
                if step.2 is Err {
                    assert(out@ == out_run.push(out@.last()));
                    assert(out@.last()@ == error_line(step.2->Err_0));
                    let na = lines_model(out_before).len() as int;
                    let nb = step.1.len() as int;
                    assert(lines_model(out@).len() == na + nb + 1);
                    assert(reported.len() == nb + 1);
                    assert forall|k: int| 0 <= k < na + nb implies #[trigger] lines_model(out@)[k]
                        == lines_model(out_run)[k] by {
                        assert(out@[k] == out_run[k]);
                    }
                    assert(lines_model(out@)[na + nb] == error_line(step.2->Err_0));
                    assert(lines_model(out@) =~~= lines_model(out_before) + reported);
                } else {
                    assert(lines_model(out@) =~~= lines_model(out_before) + reported);
                }
                let rem_next = run_from(self.env(), sm, i + 1);
                assert(lines_model(out_before) + (reported + rem_next.1) =~= lines_model(out@)
                    + rem_next.1);
            }
            i = i + 1;
        }
        proof {
            assert(lines_model(out@) + Seq::<Seq<char>>::empty() =~= lines_model(out@));
        }
        out
    }
}

proof fn lemma_run_from_preserves_depth(env: EnvModel, stmts: Seq<StmtModel>, i: int)
    ensures
        run_from(env, stmts, i).0.len() == env.len(),
    decreases stmts.len() - i,
{
    if 0 <= i < stmts.len() {
        lemma_stmt_preserves_depth(env, stmts[i]);
        lemma_run_from_preserves_depth(exec_stmt_model(env, stmts[i]).0, stmts, i + 1);
    }
}

impl Interpreter {
    /// Parses and runs a whole source text: the output is the parser's
    /// diagnostics followed by everything the run printed or reported.
    /// For the token sequence the lexer reads from `src`, the statements
    /// are what `sp_program` parses from it, the run is `run_from` over
    /// them, and the first `nd` lines are the `nd` parse diagnostics that
    /// `sp_program` counts.
    pub fn interpret(&mut self, src: &str) -> (out: Vec<String>)
        requires
            old(self).env().len() >= 1,
        ensures
            final(self).env().len() == old(self).env().len(),
            exists|t: Seq<WithSpan<Token>>|
                {
                    let (prog, nd) = crate::parser::sp_program(t, src@, 0);
                    let (envf, outf) = run_from(old(self).env(), prog, 0);
                    &&& #[trigger] tokens_model(t) == lex(src@)
                    &&& 0 <= nd <= out@.len()
                    &&& out@.len() == nd + outf.len()
                    &&& lines_model(out@.skip(nd)) == outf
                    &&& final(self).env() == envf
                },
    {
        let parser = crate::parser::Parser::new(src);
        let ghost toks = parser.toks();
        let (program, diagnostics) = parser.parse();
        let mut out = diagnostics;
        let mut run_out = self.run_program(&program);
        let ghost run_lines = run_out@;
        proof {
            lemma_run_from_preserves_depth(old(self).env(), stmts_model(program@), 0);
        }
        out.append(&mut run_out);
        proof {
            let (prog, nd) = crate::parser::sp_program(toks, src@, 0);
            let (envf, outf) = run_from(old(self).env(), prog, 0);
            assert(out@.skip(nd) =~= run_lines);
            assert(lines_model(out@.skip(nd)) == outf);
            assert(tokens_model(toks) == lex(src@));
        }
        out
    }
}

/// Law: a block is scope-disciplined. It pushes one scope, runs its body
/// there, and pops that same scope on every exit path — success and error
/// alike — so the environment it leaves is the body's result without its
/// innermost scope, and as many scopes are open after the block as
/// before it: bindings made by `let` inside the block are gone.
pub proof fn lemma_block_scope_discipline(env: EnvModel, stmts: Seq<StmtModel>)
    ensures
        ({
            let (envf, out, r) = exec_stmt_model(env, StmtModel::Block(stmts));
            let inner = exec_stmts_from(env.push(Map::empty()), stmts, 0);
            envf == inner.0.drop_last() && envf.len() == env.len()
        }),
{
    lemma_stmts_preserve_depth(env.push(Map::empty()), stmts, 0);
}

/// Law: `and` short-circuits on a false left operand: whatever the right
/// operand is — even one whose evaluation would fail — the whole
/// expression yields `false` and the right operand is never evaluated, so
/// the environment is exactly what evaluating the left operand left.
pub proof fn lemma_and_short_circuits(env: EnvModel, l: ExprModel, r: ExprModel)
    requires
        eval_expr_model(env, l).1 == Ok::<ValueModel, RuntimeError>(ValueModel::Bool(false)),
    ensures
        eval_expr_model(env, ExprModel::Logical(Box::new(l), LogicalOperator::And, Box::new(r)))
            == (eval_expr_model(env, l).0, Ok::<ValueModel, RuntimeError>(ValueModel::Bool(false))),
{
}

/// Law: `or` short-circuits on a true left operand, symmetrically.
pub proof fn lemma_or_short_circuits(env: EnvModel, l: ExprModel, r: ExprModel)
    requires
        eval_expr_model(env, l).1 == Ok::<ValueModel, RuntimeError>(ValueModel::Bool(true)),
    ensures
        eval_expr_model(env, ExprModel::Logical(Box::new(l), LogicalOperator::Or, Box::new(r)))
            == (eval_expr_model(env, l).0, Ok::<ValueModel, RuntimeError>(ValueModel::Bool(true))),
{
}

/// Law: the failure of one top-level statement is isolated. Whatever
/// statement `i` does — succeed, or fail with a reported error — the
/// statements after it still run, from the environment that statement `i`
/// left behind, and their output follows its output and report.
pub proof fn lemma_failure_isolated(env: EnvModel, stmts: Seq<StmtModel>, i: int)
    requires
        0 <= i < stmts.len(),
    ensures
        run_from(env, stmts, i) == ({
            let (env1, out1, r) = exec_stmt_model(env, stmts[i]);
            let reported = match r {
                Ok(_) => out1,
                Err(er) => out1 + seq![error_line(er)],
            };
            let rest = run_from(env1, stmts, i + 1);
            (rest.0, reported + rest.1)
        }),
{
}

/// Dispatches one binary operator over two evaluated operands.
pub fn apply_binary(op: BinaryOperator, l: &Value, r: &Value) -> (res: Result<Value, RuntimeError>)
    ensures
        crate::value::result_model(res) == apply_binary_model(op, l@, r@),
{
    match op {
        BinaryOperator::Slash => l.div(r),
        BinaryOperator::Star => l.mul(r),
        BinaryOperator::Plus => l.add(r),
        BinaryOperator::Minus => l.sub(r),
        BinaryOperator::Greater => Ok(Value::Bool(r.less(l))),
        BinaryOperator::GreaterEqual => Ok(Value::Bool(r.less(l) || l.equals(r))),
        BinaryOperator::Less => Ok(Value::Bool(l.less(r))),
        BinaryOperator::LessEqual => Ok(Value::Bool(l.less(r) || l.equals(r))),
        BinaryOperator::EqualEqual => Ok(Value::Bool(l.equals(r))),
        BinaryOperator::NotEqual => Ok(Value::Bool(!l.equals(r))),
    }
}

} // verus!
