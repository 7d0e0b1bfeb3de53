//! The parser: recursive descent over the token sequence, building a
//! statement sequence and a best-effort list of diagnostics.
//!
//! Expressions use precedence climbing; every binary and logical layer is
//! left-associative and built by iterative left-folding, assignment alone
//! is right-associative. One malformed statement never aborts the file:
//! the parser reports one diagnostic, synchronizes to the next statement
//! boundary, and goes on. A malformed numeric literal (a fractional part,
//! or more digits than a 64-bit number holds) is such a diagnostic too,
//! never an abort.
//!
//! The model is the `sp_` family of functions, one per grammar
//! production: `parse` is proved to return exactly the statements that
//! `sp_program` reads from the token sequence together with exactly as
//! many diagnostics as it counts — none for a well-formed source — and
//! every parsing routine is proved to terminate, to move the cursor
//! exactly as its production says, and to append exactly the diagnostics
//! its production counts, each in the fixed format `error_at` states.

use vstd::prelude::*;

use crate::ast::Ast;
use crate::ast::BinaryOperator;
use crate::ast::Expr;
use crate::ast::ExprModel;
use crate::ast::Stmt;
use crate::ast::StmtModel;
use crate::ast::stmts_model;
use crate::ast::lemma_stmts_model_push;
use crate::ast::UnaryOperator;
use crate::ast::LogicalOperator;
use crate::lexer::is_digit_char;
use crate::lexer::lex;
use crate::lexer::tokenize_with_context;
use crate::lexer::tokens_model;
use crate::token::Token;
use crate::token::WithSpan;
use crate::value::push_decimal;

verus! {

/// Whether every character of the word is a decimal digit.
pub open spec fn is_digit_seq(w: Seq<char>) -> bool {
    forall|k: int| 0 <= k < w.len() ==> is_digit_char(#[trigger] w[k])
}

pub open spec fn digit_val(c: char) -> int {
    (c as u32) as int - ('0' as u32) as int
}

/// The number a digit word denotes, most significant digit first.
pub open spec fn digits_value(w: Seq<char>) -> int
    decreases w.len(),
{
    if w.len() == 0 {
        0
    } else {
        digits_value(w.drop_last()) * 10 + digit_val(w.last())
    }
}

proof fn lemma_digits_value_nonneg(w: Seq<char>)
    requires
        is_digit_seq(w),
    ensures
        digits_value(w) >= 0,
    decreases w.len(),
{
    if w.len() > 0 {
        assert(is_digit_seq(w.drop_last())) by {
            assert(forall|k: int|
                0 <= k < w.len() - 1 ==> #[trigger] w.drop_last()[k] == w[k]);
        }
        lemma_digits_value_nonneg(w.drop_last());
    }
}

proof fn lemma_digits_value_prefix(w: Seq<char>, k: int)
    requires
        is_digit_seq(w),
        0 <= k <= w.len(),
    ensures
        digits_value(w.take(k)) <= digits_value(w),
    decreases w.len() - k,
{
    if k < w.len() {
        lemma_digits_value_prefix(w, k + 1);
        assert(w.take(k + 1).drop_last() =~= w.take(k));
        assert(is_digit_seq(w.take(k))) by {
            assert(forall|t: int| 0 <= t < k ==> #[trigger] w.take(k)[t] == w[t]);
        }
        lemma_digits_value_nonneg(w.take(k));
        assert(digits_value(w.take(k + 1)) == digits_value(w.take(k)) * 10 + digit_val(
            w.take(k + 1).last(),
        ));
    } else {
        assert(w.take(k) =~= w);
    }
}

/// The 1-based line a source position stands on: one more than the number
/// of newline characters before or at that position.
pub open spec fn newline_count(s: Seq<char>, n: int) -> int
    decreases n,
{
    if n <= 0 {
        0
    } else {
        newline_count(s, n - 1) + if n - 1 < s.len() && s[n - 1] == '\n' {
            1int
        } else {
            0int
        }
    }
}

pub open spec fn line_number(s: Seq<char>, pos: int) -> int {
    1 + newline_count(
        s,
        if pos + 1 <= s.len() {
            pos + 1
        } else {
            s.len() as int
        },
    )
}

/// The kind of the token at position `i`.
pub open spec fn tok_at(t: Seq<WithSpan<Token>>, i: int) -> Token {
    t[i].spec_value()
}

/// The source text of the token at position `i`, both span ends inclusive.
pub open spec fn text_of(t: Seq<WithSpan<Token>>, src: Seq<char>, i: int) -> Seq<char> {
    src.subrange(t[i].spec_start(), t[i].spec_end() + 1)
}

/// The contents of the string literal at position `i`: the characters
/// strictly between its quotes.
pub open spec fn string_text(t: Seq<WithSpan<Token>>, src: Seq<char>, i: int) -> Seq<char> {
    if t[i].spec_start() + 1 <= t[i].spec_end() {
        src.subrange(t[i].spec_start() + 1, t[i].spec_end())
    } else {
        Seq::empty()
    }
}

/// The model of a parsing result.
pub open spec fn expr_res_model(r: Result<Expr, ()>) -> Result<ExprModel, ()> {
    match r {
        Ok(e) => Ok(e@),
        Err(_) => Err(()),
    }
}

/// What the expression grammar yields from position `i`: the cursor after
/// the parse, the expression's model (or a failure), and the exact number
/// of diagnostics the parse appends. These functions mirror the grammar,
/// one per precedence level; the executable routines are proved to return
/// precisely their values and to append precisely that many diagnostics.
/// The cursor-bound tests in the bodies only serve the termination
/// argument: parsing never moves the cursor backward or past the end, so
/// their failing branches are unreachable.
#[verifier::opaque]
pub open spec fn sp_primary(t: Seq<WithSpan<Token>>, src: Seq<char>, i: int) -> (
    int,
    Result<ExprModel, ()>,
    int,
)
    decreases t.len() - i, 2int,
{
    if !(0 <= i < t.len()) {
        (i, Err(()), 0)
    } else {
        let tok = tok_at(t, i);
        if tok == Token::Eof {
            (i, Err(()), 1)
        } else {
            let j = i + 1;
            if tok == Token::Nil {
                (j, Ok(ExprModel::Nil), 0)
            } else if tok == Token::False {
                (j, Ok(ExprModel::Boolean(false)), 0)
            } else if tok == Token::True {
                (j, Ok(ExprModel::Boolean(true)), 0)
            } else if tok == Token::Number {
                let w = text_of(t, src, i);
                if w.len() >= 1 && is_digit_seq(w) && digits_value(w) <= i64::MAX {
                    (j, Ok(ExprModel::Number(digits_value(w))), 0)
                } else {
                    (j, Err(()), 0)
                }
            } else if tok == Token::String {
                (j, Ok(ExprModel::Str(string_text(t, src, i))), 0)
            } else if tok == Token::Identifier {
                (j, Ok(ExprModel::Variable(text_of(t, src, i))), 0)
            } else if tok == Token::LeftParen {
                sp_grouping(t, src, j)
            } else {
                (j, Err(()), 0)
            }
        }
    }
}

#[verifier::opaque]
pub open spec fn sp_grouping(t: Seq<WithSpan<Token>>, src: Seq<char>, i: int) -> (
    int,
    Result<ExprModel, ()>,
    int,
)
    decreases t.len() - i, 18int,
{
    let (j, r, n) = sp_expr(t, src, i);
    if 0 <= j < t.len() && tok_at(t, j) == Token::RightParen {
        (j + 1, r, n)
    } else {
        (j, Err(()), n + 1)
    }
}

#[verifier::opaque]
pub open spec fn sp_unary(t: Seq<WithSpan<Token>>, src: Seq<char>, i: int) -> (
    int,
    Result<ExprModel, ()>,
    int,
)
    decreases t.len() - i, 3int,
{
    if 0 <= i < t.len() && (tok_at(t, i) == Token::Not || tok_at(t, i) == Token::Minus) {
        let op = if tok_at(t, i) == Token::Not {
            UnaryOperator::Not
        } else {
            UnaryOperator::Minus
        };
        let (j, r, n) = sp_unary(t, src, i + 1);
        match r {
            Ok(e) => (j, Ok(ExprModel::Unary(op, Box::new(e))), n),
            Err(_) => (j, Err(()), n),
        }
    } else {
        sp_primary(t, src, i)
    }
}

#[verifier::opaque]
pub open spec fn sp_factor_rest(
    t: Seq<WithSpan<Token>>,
    src: Seq<char>,
    left: ExprModel,
    i: int,
) -> (int, Result<ExprModel, ()>, int)
    decreases t.len() - i, 4int,
{
    if 0 <= i < t.len() && (tok_at(t, i) == Token::Star || tok_at(t, i) == Token::Slash) {
        let op = if tok_at(t, i) == Token::Star {
            BinaryOperator::Star
        } else {
            BinaryOperator::Slash
        };
        let (j, r, n) = sp_unary(t, src, i + 1);
        match r {
            Ok(right) => if i < j <= t.len() {
                let (k, r2, n2) = sp_factor_rest(
                    t,
                    src,
                    ExprModel::Binary(Box::new(left), op, Box::new(right)),
                    j,
                );
                (k, r2, n + n2)
            } else {
                (j, Err(()), n)
            },
            Err(_) => (j, Err(()), n),
        }
    } else {
        (i, Ok(left), 0)
    }
}

#[verifier::opaque]
pub open spec fn sp_factor(t: Seq<WithSpan<Token>>, src: Seq<char>, i: int) -> (
    int,
    Result<ExprModel, ()>,
    int,
)
    decreases t.len() - i, 5int,
{
    let (j, r, n) = sp_unary(t, src, i);
    match r {
        Ok(e) => if i <= j <= t.len() {
            let (k, r2, n2) = sp_factor_rest(t, src, e, j);
            (k, r2, n + n2)
        } else {
            (j, Err(()), n)
        },
        Err(_) => (j, Err(()), n),
    }
}

#[verifier::opaque]
pub open spec fn sp_term_rest(t: Seq<WithSpan<Token>>, src: Seq<char>, left: ExprModel, i: int) -> (
    int,
    Result<ExprModel, ()>,
    int,
)
    decreases t.len() - i, 6int,
{
    if 0 <= i < t.len() && (tok_at(t, i) == Token::Plus || tok_at(t, i) == Token::Minus) {
        let op = if tok_at(t, i) == Token::Plus {
            BinaryOperator::Plus
        } else {
            BinaryOperator::Minus
        };
        let (j, r, n) = sp_factor(t, src, i + 1);
        match r {
            Ok(right) => if i < j <= t.len() {
                let (k, r2, n2) = sp_term_rest(
                    t,
                    src,
                    ExprModel::Binary(Box::new(left), op, Box::new(right)),
                    j,
                );
                (k, r2, n + n2)
            } else {
                (j, Err(()), n)
            },
            Err(_) => (j, Err(()), n),
        }
    } else {
        (i, Ok(left), 0)
    }
}

#[verifier::opaque]
pub open spec fn sp_term(t: Seq<WithSpan<Token>>, src: Seq<char>, i: int) -> (
    int,
    Result<ExprModel, ()>,
    int,
)
    decreases t.len() - i, 7int,
{
    let (j, r, n) = sp_factor(t, src, i);
    match r {
        Ok(e) => if i <= j <= t.len() {
            let (k, r2, n2) = sp_term_rest(t, src, e, j);
            (k, r2, n + n2)
        } else {
            (j, Err(()), n)
        },
        Err(_) => (j, Err(()), n),
    }
}

pub open spec fn comparison_op(tok: Token) -> Option<BinaryOperator> {
    if tok == Token::Greater {
        Some(BinaryOperator::Greater)
    } else if tok == Token::GreaterEqual {
        Some(BinaryOperator::GreaterEqual)
    } else if tok == Token::Less {
        Some(BinaryOperator::Less)
    } else if tok == Token::LessEqual {
        Some(BinaryOperator::LessEqual)
    } else {
        None
    }
}

#[verifier::opaque]
pub open spec fn sp_comparison_rest(
    t: Seq<WithSpan<Token>>,
    src: Seq<char>,
    left: ExprModel,
    i: int,
) -> (int, Result<ExprModel, ()>, int)
    decreases t.len() - i, 8int,
{
    if 0 <= i < t.len() && comparison_op(tok_at(t, i)) is Some {
        let op = comparison_op(tok_at(t, i))->0;
        let (j, r, n) = sp_term(t, src, i + 1);
        match r {
            Ok(right) => if i < j <= t.len() {
                let (k, r2, n2) = sp_comparison_rest(
                    t,
                    src,
                    ExprModel::Binary(Box::new(left), op, Box::new(right)),
                    j,
                );
                (k, r2, n + n2)
            } else {
                (j, Err(()), n)
            },
            Err(_) => (j, Err(()), n),
        }
    } else {
        (i, Ok(left), 0)
    }
}

#[verifier::opaque]
pub open spec fn sp_comparison(t: Seq<WithSpan<Token>>, src: Seq<char>, i: int) -> (
    int,
    Result<ExprModel, ()>,
    int,
)
    decreases t.len() - i, 9int,
{
    let (j, r, n) = sp_term(t, src, i);
    match r {
        Ok(e) => if i <= j <= t.len() {
            let (k, r2, n2) = sp_comparison_rest(t, src, e, j);
            (k, r2, n + n2)
        } else {
            (j, Err(()), n)
        },
        Err(_) => (j, Err(()), n),
    }
}

#[verifier::opaque]
pub open spec fn sp_equality_rest(
    t: Seq<WithSpan<Token>>,
    src: Seq<char>,
    left: ExprModel,
    i: int,
) -> (int, Result<ExprModel, ()>, int)
    decreases t.len() - i, 10int,
{
    if 0 <= i < t.len() && (tok_at(t, i) == Token::NotEqual || tok_at(t, i)
        == Token::EqualEqual) {
        let op = if tok_at(t, i) == Token::NotEqual {
            BinaryOperator::NotEqual
        } else {
            BinaryOperator::EqualEqual
        };
        let (j, r, n) = sp_comparison(t, src, i + 1);
        match r {
            Ok(right) => if i < j <= t.len() {
                let (k, r2, n2) = sp_equality_rest(
                    t,
                    src,
                    ExprModel::Binary(Box::new(left), op, Box::new(right)),
                    j,
                );
                (k, r2, n + n2)
            } else {
                (j, Err(()), n)
            },
            Err(_) => (j, Err(()), n),
        }
    } else {
        (i, Ok(left), 0)
    }
}

#[verifier::opaque]
pub open spec fn sp_equality(t: Seq<WithSpan<Token>>, src: Seq<char>, i: int) -> (
    int,
    Result<ExprModel, ()>,
    int,
)
    decreases t.len() - i, 11int,
{
    let (j, r, n) = sp_comparison(t, src, i);
    match r {
        Ok(e) => if i <= j <= t.len() {
            let (k, r2, n2) = sp_equality_rest(t, src, e, j);
            (k, r2, n + n2)
        } else {
            (j, Err(()), n)
        },
        Err(_) => (j, Err(()), n),
    }
}

#[verifier::opaque]
pub open spec fn sp_and_rest(t: Seq<WithSpan<Token>>, src: Seq<char>, left: ExprModel, i: int) -> (
    int,
    Result<ExprModel, ()>,
    int,
)
    decreases t.len() - i, 12int,
{
    if 0 <= i < t.len() && tok_at(t, i) == Token::And {
        let (j, r, n) = sp_equality(t, src, i + 1);
        match r {
            Ok(right) => if i < j <= t.len() {
                let (k, r2, n2) = sp_and_rest(
                    t,
                    src,
                    ExprModel::Logical(Box::new(left), LogicalOperator::And, Box::new(right)),
                    j,
                );
                (k, r2, n + n2)
            } else {
                (j, Err(()), n)
            },
            Err(_) => (j, Err(()), n),
        }
    } else {
        (i, Ok(left), 0)
    }
}

#[verifier::opaque]
pub open spec fn sp_logic_and(t: Seq<WithSpan<Token>>, src: Seq<char>, i: int) -> (
    int,
    Result<ExprModel, ()>,
    int,
)
    decreases t.len() - i, 13int,
{
    let (j, r, n) = sp_equality(t, src, i);
    match r {
        Ok(e) => if i <= j <= t.len() {
            let (k, r2, n2) = sp_and_rest(t, src, e, j);
            (k, r2, n + n2)
        } else {
            (j, Err(()), n)
        },
        Err(_) => (j, Err(()), n),
    }
}

#[verifier::opaque]
pub open spec fn sp_or_rest(t: Seq<WithSpan<Token>>, src: Seq<char>, left: ExprModel, i: int) -> (
    int,
    Result<ExprModel, ()>,
    int,
)
    decreases t.len() - i, 14int,
{
    if 0 <= i < t.len() && tok_at(t, i) == Token::Or {
        let (j, r, n) = sp_logic_and(t, src, i + 1);
        match r {
            Ok(right) => if i < j <= t.len() {
                let (k, r2, n2) = sp_or_rest(
                    t,
                    src,
                    ExprModel::Logical(Box::new(left), LogicalOperator::Or, Box::new(right)),
                    j,
                );
                (k, r2, n + n2)
            } else {
                (j, Err(()), n)
            },
            Err(_) => (j, Err(()), n),
        }
    } else {
        (i, Ok(left), 0)
    }
}

#[verifier::opaque]
pub open spec fn sp_logic_or(t: Seq<WithSpan<Token>>, src: Seq<char>, i: int) -> (
    int,
    Result<ExprModel, ()>,
    int,
)
    decreases t.len() - i, 15int,
{
    let (j, r, n) = sp_logic_and(t, src, i);
    match r {
        Ok(e) => if i <= j <= t.len() {
            let (k, r2, n2) = sp_or_rest(t, src, e, j);
            (k, r2, n + n2)
        } else {
            (j, Err(()), n)
        },
        Err(_) => (j, Err(()), n),
    }
}

/// An assignment: right-associative, and an invalid target — a left side
/// that is no bare variable — costs exactly one diagnostic while the
/// parse goes on with the left expression.
#[verifier::opaque]
pub open spec fn sp_assignment(t: Seq<WithSpan<Token>>, src: Seq<char>, i: int) -> (
    int,
    Result<ExprModel, ()>,
    int,
)
    decreases t.len() - i, 16int,
{
    let (j, r, n) = sp_logic_or(t, src, i);
    match r {
        Ok(left) => if 0 <= j < t.len() && tok_at(t, j) == Token::Equal && i <= j {
            let (k, r2, n2) = sp_assignment(t, src, j + 1);
            match r2 {
                Ok(right) => match left {
                    ExprModel::Variable(name) => (
                        k,
                        Ok(ExprModel::Assignment(name, Box::new(right))),
                        n + n2,
                    ),
                    _ => (k, Ok(left), n + n2 + 1),
                },
                Err(_) => (k, Err(()), n + n2),
            }
        } else {
            (j, Ok(left), n)
        },
        Err(_) => (j, Err(()), n),
    }
}

/// What the whole expression grammar yields from position `i`.
#[verifier::opaque]
pub open spec fn sp_expr(t: Seq<WithSpan<Token>>, src: Seq<char>, i: int) -> (
    int,
    Result<ExprModel, ()>,
    int,
)
    decreases t.len() - i, 17int,
{
    sp_assignment(t, src, i)
}

/// The model of a statement parsing result.
pub open spec fn stmt_res_model(r: Result<Stmt, ()>) -> Result<StmtModel, ()> {
    match r {
        Ok(s) => Ok(s@),
        Err(_) => Err(()),
    }
}

/// What the statement grammar yields from position `i`, mirrored exactly
/// like the expression grammar above, diagnostic counts included.
#[verifier::opaque]
pub open spec fn sp_expr_stmt(t: Seq<WithSpan<Token>>, src: Seq<char>, i: int) -> (
    int,
    Result<StmtModel, ()>,
    int,
)
    decreases t.len() - i, 19int,
{
    let (j, r, n) = sp_expr(t, src, i);
    match r {
        Ok(e) => if 0 <= j < t.len() && tok_at(t, j) == Token::Semicolon {
            (j + 1, Ok(StmtModel::Expr(e)), n)
        } else {
            (j, Err(()), n + 1)
        },
        Err(_) => (j, Err(()), n + 1),
    }
}

/// A `print` statement from position `i`, the keyword already seen there.
#[verifier::opaque]
pub open spec fn sp_print_stmt(t: Seq<WithSpan<Token>>, src: Seq<char>, i: int) -> (
    int,
    Result<StmtModel, ()>,
    int,
)
    decreases t.len() - i, 19int,
{
    let (j, r, n) = sp_expr(t, src, i + 1);
    match r {
        Ok(e) => if 0 <= j < t.len() && tok_at(t, j) == Token::Semicolon {
            (j + 1, Ok(StmtModel::Print(e)), n)
        } else {
            (j, Err(()), n + 1)
        },
        Err(_) => (j, Err(()), n + 1),
    }
}

/// A `let` declaration from position `i`, the keyword already seen there.
#[verifier::opaque]
pub open spec fn sp_var_declaration(
    t: Seq<WithSpan<Token>>,
    src: Seq<char>,
    i: int,
) -> (int, Result<StmtModel, ()>, int)
    decreases t.len() - i, 19int,
{
    if 0 <= i + 1 < t.len() && tok_at(t, i + 1) == Token::Identifier {
        let name = text_of(t, src, i + 1);
        let k = i + 2;
        if 0 <= k < t.len() && tok_at(t, k) == Token::Equal {
            let (j, r, n) = sp_expr(t, src, k + 1);
            match r {
                Ok(e) => if 0 <= j < t.len() && tok_at(t, j) == Token::Semicolon {
                    (j + 1, Ok(StmtModel::Let(name, Some(e))), n)
                } else {
                    (j, Err(()), n + 1)
                },
                Err(_) => (j, Err(()), n),
            }
        } else if 0 <= k < t.len() && tok_at(t, k) == Token::Semicolon {
            (k + 1, Ok(StmtModel::Let(name, None)), 0)
        } else {
            (k, Err(()), 1)
        }
    } else {
        (i + 1, Err(()), 1)
    }
}

/// An `if` statement from position `i`, the keyword already seen there.
#[verifier::opaque]
pub open spec fn sp_if_stmt(t: Seq<WithSpan<Token>>, src: Seq<char>, i: int) -> (
    int,
    Result<StmtModel, ()>,
    int,
)
    decreases t.len() - i, 19int,
{
    if 0 <= i + 1 < t.len() && tok_at(t, i + 1) == Token::LeftParen {
        let (j, r, n) = sp_expr(t, src, i + 2);
        match r {
            Ok(c) => if 0 <= j < t.len() && tok_at(t, j) == Token::RightParen && i < j {
                let (k, r2, n2) = sp_statement(t, src, j + 1);
                match r2 {
                    Ok(th) => if 0 <= k < t.len() && tok_at(t, k) == Token::Else && i < k {
                        let (m, r3, n3) = sp_statement(t, src, k + 1);
                        match r3 {
                            Ok(el) => (
                                m,
                                Ok(StmtModel::If(c, Box::new(th), Some(Box::new(el)))),
                                n + n2 + n3,
                            ),
                            Err(_) => (m, Err(()), n + n2 + n3),
                        }
                    } else {
                        (k, Ok(StmtModel::If(c, Box::new(th), None)), n + n2)
                    },
                    Err(_) => (k, Err(()), n + n2),
                }
            } else {
                (j, Err(()), n + 1)
            },
            Err(_) => (j, Err(()), n),
        }
    } else {
        (i + 1, Err(()), 1)
    }
}

/// The declarations of a block body, from position `i` up to its `}`.
#[verifier::opaque]
pub open spec fn sp_block_rest(
    t: Seq<WithSpan<Token>>,
    src: Seq<char>,
    acc: Seq<StmtModel>,
    i: int,
) -> (int, Result<Seq<StmtModel>, ()>, int)
    decreases t.len() - i, 22int,
{
    if !(0 <= i < t.len()) {
        (i, Err(()), 0)
    } else if tok_at(t, i) == Token::RightBrace {
        (i + 1, Ok(acc), 0)
    } else if tok_at(t, i) == Token::Eof {
        (i, Err(()), 1)
    } else {
        let (j, r, n) = sp_declaration(t, src, i);
        match r {
            Ok(s) => if i < j <= t.len() {
                let (k, r2, n2) = sp_block_rest(t, src, acc.push(s), j);
                (k, r2, n + n2)
            } else {
                (j, Err(()), n)
            },
            Err(_) => (j, Err(()), n),
        }
    }
}

#[verifier::opaque]
pub open spec fn sp_statement(t: Seq<WithSpan<Token>>, src: Seq<char>, i: int) -> (
    int,
    Result<StmtModel, ()>,
    int,
)
    decreases t.len() - i, 20int,
{
    if !(0 <= i < t.len()) {
        (i, Err(()), 0)
    } else {
        let tok = tok_at(t, i);
        if tok == Token::Eof {
            (i, Err(()), 0)
        } else if tok == Token::LeftBrace {
            let (j, r, n) = sp_block_rest(t, src, Seq::empty(), i + 1);
            match r {
                Ok(stmts) => (j, Ok(StmtModel::Block(stmts)), n),
                Err(_) => (j, Err(()), n),
            }
        } else if tok == Token::Print {
            sp_print_stmt(t, src, i)
        } else if tok == Token::If {
            sp_if_stmt(t, src, i)
        } else {
            sp_expr_stmt(t, src, i)
        }
    }
}

#[verifier::opaque]
pub open spec fn sp_declaration(t: Seq<WithSpan<Token>>, src: Seq<char>, i: int) -> (
    int,
    Result<StmtModel, ()>,
    int,
)
    decreases t.len() - i, 21int,
{
    if !(0 <= i < t.len()) {
        (i, Err(()), 0)
    } else if tok_at(t, i) == Token::Eof {
        (i, Err(()), 0)
    } else if tok_at(t, i) == Token::Let {
        sp_var_declaration(t, src, i)
    } else {
        sp_statement(t, src, i)
    }
}

/// Whether a token can begin a statement, for error recovery.
pub open spec fn sync_token(tok: Token) -> bool {
    tok == Token::For || tok == Token::Fun || tok == Token::If || tok == Token::Print || tok
        == Token::Return || tok == Token::Let
}

/// Where synchronization stops after a malformed statement: just past a
/// `;`, or just before a token that can begin a statement, or the end.
#[verifier::opaque]
pub open spec fn sp_synchronize(t: Seq<WithSpan<Token>>, i: int) -> int
    decreases t.len() - i,
{
    if !(0 <= i < t.len()) {
        i
    } else if tok_at(t, i) == Token::Eof {
        i
    } else if i > 0 && tok_at(t, i - 1) == Token::Semicolon {
        i
    } else if sync_token(tok_at(t, i)) {
        i
    } else {
        sp_synchronize(t, i + 1)
    }
}

/// The reading of a whole program from position `i`: its statements, and
/// the exact number of diagnostics reported. Declarations are read until
/// the end of input; a malformed one costs its own diagnostics, triggers
/// synchronization, and the declarations after it are still read. A fully
/// well-formed source therefore yields zero diagnostics, and one that is
/// not yields at least one.
#[verifier::opaque]
pub open spec fn sp_program(t: Seq<WithSpan<Token>>, src: Seq<char>, i: int) -> (
    Seq<StmtModel>,
    int,
)
    decreases t.len() - i,
{
    if !(0 <= i < t.len()) || tok_at(t, i) == Token::Eof {
        (Seq::empty(), 0)
    } else {
        let (j, r, n) = sp_declaration(t, src, i);
        match r {
            Ok(s) => if i < j <= t.len() {
                let (rest, n2) = sp_program(t, src, j);
                (seq![s] + rest, n + n2)
            } else {
                (seq![s], n)
            },
            Err(_) => {
                let k = sp_synchronize(t, j);
                if i < k <= t.len() {
                    let (rest, n2) = sp_program(t, src, k);
                    (rest, n + n2)
                } else {
                    (Seq::empty(), n)
                }
            },
        }
    }
}

/// The line number a diagnostic names: the 1-based line of the position,
/// saturated at the machine's largest counter.
pub open spec fn clamped_line(s: Seq<char>, pos: int) -> int {
    if line_number(s, pos) <= usize::MAX {
        line_number(s, pos)
    } else {
        usize::MAX as int
    }
}

/// The display name of a token kind, as diagnostics print it.
pub open spec fn spec_token_name(t: Token) -> Seq<char> {
    match t {
        Token::LeftParen => "LeftParen"@,
        Token::RightParen => "RightParen"@,
        Token::LeftBracket => "LeftBracket"@,
        Token::RightBracket => "RightBracket"@,
        Token::LeftBrace => "LeftBrace"@,
        Token::RightBrace => "RightBrace"@,
        Token::Comma => "Comma"@,
        Token::Dot => "Dot"@,
        Token::Minus => "Minus"@,
        Token::Plus => "Plus"@,
        Token::Semicolon => "Semicolon"@,
        Token::Slash => "Slash"@,
        Token::Star => "Star"@,
        Token::Not => "Not"@,
        Token::NotEqual => "NotEqual"@,
        Token::Equal => "Equal"@,
        Token::EqualEqual => "EqualEqual"@,
        Token::Greater => "Greater"@,
        Token::GreaterEqual => "GreaterEqual"@,
        Token::Less => "Less"@,
        Token::LessEqual => "LessEqual"@,
        Token::Identifier => "Identifier"@,
        Token::String => "String"@,
        Token::Number => "Number"@,
        Token::And => "And"@,
        Token::Else => "Else"@,
        Token::False => "False"@,
        Token::For => "For"@,
        Token::Fun => "Fun"@,
        Token::If => "If"@,
        Token::In => "In"@,
        Token::Nil => "Nil"@,
        Token::Or => "Or"@,
        Token::Print => "Print"@,
        Token::Return => "Return"@,
        Token::True => "True"@,
        Token::Let => "Let"@,
        Token::Error => "Error"@,
        Token::Eof => "Eof"@,
    }
}

/// The text of one diagnostic: the message, the 1-based line of the
/// offending token, and the token's display name.
pub open spec fn diagnostic_text(src: Seq<char>, msg: Seq<char>, tok: Token, pos: int) -> Seq<
    char,
> {
    "\nParseErr: "@ + msg + "\nAtLine ["@ + crate::value::dec_digits(
        clamped_line(src, pos) as nat,
    ) + "] AtToken["@ + spec_token_name(tok) + "]\n\n"@
}

/// The parser's state: the tokens, the source they came from, a cursor,
/// and the diagnostics reported so far.
pub struct Parser {
    tokens: Vec<WithSpan<Token>>,
    source: String,
    cursor: usize,
    errors: Vec<String>,
}

impl Parser {
    pub closed spec fn toks(self) -> Seq<WithSpan<Token>> {
        self.tokens@
    }

    pub closed spec fn src(self) -> Seq<char> {
        self.source@
    }

    pub closed spec fn cur(self) -> int {
        self.cursor as int
    }

    pub closed spec fn errs(self) -> Seq<String> {
        self.errors@
    }

    /// Well-formedness: the token list ends with its only `Eof`, the
    /// cursor never passes it, and every other token's span lies inside
    /// the source.
    pub open spec fn wf(self) -> bool {
        &&& self.toks().len() >= 1
        &&& 0 <= self.cur() < self.toks().len()
        &&& forall|k: int|
            0 <= k < self.toks().len() ==> (((#[trigger] self.toks()[k]).spec_value()
                == Token::Eof) <==> k == self.toks().len() - 1)
        &&& forall|k: int|
            0 <= k < self.toks().len() - 1 ==> 0 <= (#[trigger] self.toks()[k]).spec_start()
                <= self.toks()[k].spec_end() < self.src().len()
    }

    /// Whether the cursor stands on the terminating `Eof`.
    pub open spec fn at_eof(self) -> bool {
        self.toks()[self.cur()].spec_value() == Token::Eof
    }
}

/// The frame every parsing step preserves: tokens and source unchanged,
/// the cursor moves only forward, diagnostics are only appended.
pub open spec fn parser_frame(p0: Parser, p1: Parser) -> bool {
    &&& p1.wf()
    &&& p1.toks() == p0.toks()
    &&& p1.src() == p0.src()
    &&& p1.cur() >= p0.cur()
    &&& p0.errs().is_prefix_of(p1.errs())
}

/// Progress: the step consumed a token, or it stands at the end of input.
pub open spec fn progressed(p0: Parser, p1: Parser) -> bool {
    p1.cur() > p0.cur() || (p1.cur() == p0.cur() && p1.at_eof())
}

/// Parses a whole source text, discarding the diagnostics: the result is
/// what `sp_program` reads from the tokens the lexer yields for `src`.
pub fn parse(src: &str) -> (r: Ast)
    ensures
        exists|t: Seq<WithSpan<Token>>|
            tokens_model(t) == lex(src@) && stmts_model(r@) == sp_program(t, src@, 0).0,
{
    let parser = Parser::new(src);
    let ghost toks = parser.toks();
    let (statements, _diagnostics) = parser.parse();
    proof {
        assert(tokens_model(toks) == lex(src@) && stmts_model(statements@) == sp_program(
            toks,
            src@,
            0,
        ).0);
    }
    statements
}

impl Parser {
    /// Scans the source; the parser starts at the first token with no
    /// diagnostics.
    pub fn new(source: &str) -> (r: Self)
        ensures
            r.wf(),
            tokens_model(r.toks()) == lex(source@),
            r.src() == source@,
            r.cur() == 0,
            r.errs() == Seq::<String>::empty(),
    {
        let tokens = tokenize_with_context(source);
        let p = Parser {
            tokens,
            source: String::from_str(source),
            cursor: 0,
            errors: Vec::new(),
        };
        proof {
            crate::lexer::lemma_lex_spans(source@, 0);
            assert forall|k: int| 0 <= k < p.toks().len() implies (((#[trigger] p.toks()[
            k]).spec_value() == Token::Eof) <==> k == p.toks().len() - 1) by {
                assert(tokens_model(p.toks())[k] == crate::token::spanned(p.toks()[k]));
            }
            assert forall|k: int| 0 <= k < p.toks().len() - 1 implies 0 <= (#[trigger] p.toks()[
            k]).spec_start() <= p.toks()[k].spec_end() < p.src().len() by {
                assert(tokens_model(p.toks())[k] == crate::token::spanned(p.toks()[k]));
            }
        }
        p
    }

    /// Parses the program: declarations until the end of input, with
    /// synchronization after each malformed statement. The returned
    /// statements are exactly what `sp_program` reads from the tokens, and
    /// the returned diagnostics are exactly as many as it counts: none for
    /// a fully well-formed source, and each malformed statement adds its
    /// own and never stops the statements after it from appearing.
    pub fn parse(self) -> (r: (Ast, Vec<String>))
        requires
            self.wf(),
        ensures
            ({
                let (prog, nd) = sp_program(self.toks(), self.src(), self.cur());
                stmts_model(r.0@) == prog && r.1@.len() == self.errs().len() + nd
            }),
    {
        let ghost t0 = self.toks();
        let ghost s0 = self.src();
        let ghost c0 = self.cur();
        let ghost e0 = self.errs().len();
        let mut this = self;
        let mut statements: Vec<Stmt> = Vec::new();
        proof {
            assert(stmts_model(statements@) =~= Seq::<StmtModel>::empty());
            assert(stmts_model(statements@) + sp_program(t0, s0, c0).0 =~= sp_program(
                t0,
                s0,
                c0,
            ).0);
        }
        while !this.is_at_end()
            invariant
                this.wf(),
                this.toks() == t0,
                this.src() == s0,
                this.errs().len() >= e0,
                ({
                    let full = sp_program(t0, s0, c0);
                    let rem = sp_program(t0, s0, this.cur());
                    full.0 == stmts_model(statements@) + rem.0 && full.1 == this.errs().len() - e0
                        + rem.1
                }),
            decreases this.toks().len() - this.cur(),
        {
            let ghost before = this;
            match this.declaration() {
                Ok(stmt) => {
                    proof {
                        reveal(sp_program);
                        lemma_stmts_model_push(statements@, stmt);
                        assert(stmts_model(statements@).push(stmt@) + sp_program(
                            t0,
                            s0,
                            this.cur(),
                        ).0 =~= stmts_model(statements@) + (seq![stmt@] + sp_program(
                            t0,
                            s0,
                            this.cur(),
                        ).0));
                    }
                    statements.push(stmt);
                },
                Err(_) => {
                    proof {
                        assert(this.cur() > before.cur());
                        reveal(sp_program);
                    }
                    this.synchronize();
                },
            }
        }
        proof {
            reveal(sp_program);
            assert(sp_program(t0, s0, this.cur()).0 =~= Seq::<StmtModel>::empty());
            assert(stmts_model(statements@) + Seq::<StmtModel>::empty() =~= stmts_model(
                statements@,
            ));
        }
        (statements, this.errors)
    }
}

/// Statements
impl Parser {
    #[verifier::rlimit(50)]
    #[verifier::spinoff_prover]
    fn declaration(&mut self) -> (res: Result<Stmt, ()>)
        requires
            old(self).wf(),
        ensures
            parser_frame(*old(self), *final(self)),
            res is Ok ==> final(self).cur() > old(self).cur(),
            progressed(*old(self), *final(self)),
            ({
                let (j, r, nd) = sp_declaration(old(self).toks(), old(self).src(), old(self).cur());
                final(self).cur() == j && stmt_res_model(res) == r && final(self).errs().len() == old(
                    self,
                ).errs().len() + nd
            }),
        decreases old(self).toks().len() - old(self).cur(), 20int,
    {
        proof {
            reveal(sp_declaration);
            reveal(sp_statement);
            reveal(sp_var_declaration);
        }
        match self.peek() {
            Some(token) => {
                if token == Token::Let {
                    self.var_declaration()
                } else {
                    self.statement()
                }
            },
            None => Err(()),
        }
    }

    #[verifier::rlimit(50)]
    #[verifier::spinoff_prover]
    fn var_declaration(&mut self) -> (res: Result<Stmt, ()>)
        requires
            old(self).wf(),
            !old(self).at_eof(),
        ensures
            parser_frame(*old(self), *final(self)),
            final(self).cur() > old(self).cur(),
            ({
                let (j, r, nd) = sp_var_declaration(
                    old(self).toks(),
                    old(self).src(),
                    old(self).cur(),
                );
                final(self).cur() == j && stmt_res_model(res) == r && final(self).errs().len() == old(
                    self,
                ).errs().len() + nd
            }),
        decreases old(self).toks().len() - old(self).cur(), 19int,
    {
        proof {
            reveal(sp_var_declaration);
            reveal(sp_expr);
        }
        self.advance();  // the `let` keyword
        if let Err(e) = self.consume(Token::Identifier, "Expected Identifier") {
            return Err(e);
        }
        let identifier_lexeme = self.parse_name(self.cursor - 1);

        let mut initializer_expr: Option<Expr> = None;
        if self.match_token(Token::Equal) {
            match self.expr() {
                Ok(e) => {
                    initializer_expr = Some(e);
                },
                Err(e) => {
                    return Err(e);
                },
            }
        }

        if let Err(e) = self.consume(Token::Semicolon, "Expected ';' after expr.") {
            return Err(e);
        }
        Ok(Stmt::Let(identifier_lexeme, initializer_expr))
    }

    #[verifier::rlimit(50)]
    #[verifier::spinoff_prover]
    fn statement(&mut self) -> (res: Result<Stmt, ()>)
        requires
            old(self).wf(),
        ensures
            parser_frame(*old(self), *final(self)),
            res is Ok ==> final(self).cur() > old(self).cur(),
            progressed(*old(self), *final(self)),
            ({
                let (j, r, nd) = sp_statement(old(self).toks(), old(self).src(), old(self).cur());
                final(self).cur() == j && stmt_res_model(res) == r && final(self).errs().len() == old(
                    self,
                ).errs().len() + nd
            }),
        decreases old(self).toks().len() - old(self).cur(), 19int,
    {
        proof {
            reveal(sp_statement);
            reveal(sp_print_stmt);
            reveal(sp_if_stmt);
            reveal(sp_expr_stmt);
        }
        match self.peek() {
            Some(token) => {
                if token == Token::LeftBrace {
                    self.block()
                } else if token == Token::Print {
                    self.print_stmt()
                } else if token == Token::If {
                    self.if_stmt()
                } else {
                    self.expr_stmt()
                }
            },
            None => Err(()),
        }
    }

    #[verifier::rlimit(50)]
    #[verifier::spinoff_prover]
    fn block(&mut self) -> (res: Result<Stmt, ()>)
        requires
            old(self).wf(),
            !old(self).at_eof(),
            old(self).toks()[old(self).cur()].spec_value() == Token::LeftBrace,
        ensures
            parser_frame(*old(self), *final(self)),
            final(self).cur() > old(self).cur(),
            ({
                let (j, r, nd) = sp_block_rest(
                    old(self).toks(),
                    old(self).src(),
                    Seq::empty(),
                    old(self).cur() + 1,
                );
                final(self).cur() == j && stmt_res_model(res) == (match r {
                    Ok(stmts) => Ok(StmtModel::Block(stmts)),
                    Err(_) => Err(()),
                }) && final(self).errs().len() == old(self).errs().len() + nd
            }),
        decreases old(self).toks().len() - old(self).cur(), 18int,
    {
        self.advance();  // the `{` token

        let mut stmts: Vec<Stmt> = Vec::new();
        proof {
            reveal(sp_block_rest);
            assert(stmts_model(stmts@) =~= Seq::<StmtModel>::empty());
        }

        while !self.check(Token::RightBrace) && !self.is_at_end()
            invariant
                self.wf(),
                self.toks() == old(self).toks(),
                self.src() == old(self).src(),
                self.cur() > old(self).cur(),
                old(self).errs().is_prefix_of(self.errs()),
                ({
                    let full = sp_block_rest(
                        old(self).toks(),
                        old(self).src(),
                        Seq::empty(),
                        old(self).cur() + 1,
                    );
                    let rem = sp_block_rest(
                        old(self).toks(),
                        old(self).src(),
                        stmts_model(stmts@),
                        self.cur(),
                    );
                    full.0 == rem.0 && full.1 == rem.1 && full.2 == self.errs().len() - old(
                        self,
                    ).errs().len() + rem.2
                }),
            decreases self.toks().len() - self.cur(),
        {
            proof {
                reveal(sp_block_rest);
            }
            match self.declaration() {
                Ok(stmt) => {
                    proof {
                        lemma_stmts_model_push(stmts@, stmt);
                    }
                    stmts.push(stmt);
                },
                Err(e) => {
                    return Err(e);
                },
            }
        }
        proof {
            reveal(sp_block_rest);
        }
        if let Err(e) = self.consume(Token::RightBrace, "Expected '}' after block.") {
            return Err(e);
        }

        Ok(Stmt::Block(stmts))
    }

    #[verifier::rlimit(50)]
    #[verifier::spinoff_prover]
    fn print_stmt(&mut self) -> (res: Result<Stmt, ()>)
        requires
            old(self).wf(),
            !old(self).at_eof(),
            old(self).toks()[old(self).cur()].spec_value() == Token::Print,
        ensures
            parser_frame(*old(self), *final(self)),
            final(self).cur() > old(self).cur(),
            ({
                let (j, r, nd) = sp_print_stmt(old(self).toks(), old(self).src(), old(self).cur());
                final(self).cur() == j && stmt_res_model(res) == r && final(self).errs().len() == old(
                    self,
                ).errs().len() + nd
            }),
        decreases old(self).toks().len() - old(self).cur(), 18int,
    {
        proof {
            reveal(sp_print_stmt);
            reveal(sp_expr);
        }
        self.advance();  // the `print` keyword

        match self.expr() {
            Ok(expr) => {
                if let Err(e) = self.consume(Token::Semicolon, "Expected ';' after expr") {
                    return Err(e);
                }
                Ok(Stmt::Print(expr))
            },
            Err(_) => {
                self.error_at(self.cursor - 1, "Expected Expression after print.");
                Err(())
            },
        }
    }

    #[verifier::rlimit(50)]
    #[verifier::spinoff_prover]
    fn if_stmt(&mut self) -> (res: Result<Stmt, ()>)
        requires
            old(self).wf(),
            !old(self).at_eof(),
            old(self).toks()[old(self).cur()].spec_value() == Token::If,
        ensures
            parser_frame(*old(self), *final(self)),
            final(self).cur() > old(self).cur(),
            ({
                let (j, r, nd) = sp_if_stmt(old(self).toks(), old(self).src(), old(self).cur());
                final(self).cur() == j && stmt_res_model(res) == r && final(self).errs().len() == old(
                    self,
                ).errs().len() + nd
            }),
        decreases old(self).toks().len() - old(self).cur(), 18int,
    {
        proof {
            reveal(sp_if_stmt);
            reveal(sp_expr);
        }
        self.advance();  // the `if` keyword
        if let Err(e) = self.consume(Token::LeftParen, "Expected '(' after if.") {
            return Err(e);
        }
        let condition = match self.expr() {
            Ok(expr) => expr,
            Err(e) => {
                return Err(e);
            },
        };
        if let Err(e) = self.consume(Token::RightParen, "Expected ')' after if condition.") {
            return Err(e);
        }
        let then_stmt = match self.statement() {
            Ok(stmt) => stmt,
            Err(e) => {
                return Err(e);
            },
        };
        let mut else_stmt: Option<Box<Stmt>> = None;
        if self.match_token(Token::Else) {
            match self.statement() {
                Ok(stmt) => {
                    else_stmt = Some(Box::new(stmt));
                },
                Err(e) => {
                    return Err(e);
                },
            }
        }
        Ok(Stmt::If(condition, Box::new(then_stmt), else_stmt))
    }

    #[verifier::rlimit(50)]
    #[verifier::spinoff_prover]
    fn expr_stmt(&mut self) -> (res: Result<Stmt, ()>)
        requires
            old(self).wf(),
        ensures
            parser_frame(*old(self), *final(self)),
            res is Ok ==> final(self).cur() > old(self).cur(),
            progressed(*old(self), *final(self)),
            ({
                let (j, r, nd) = sp_expr_stmt(old(self).toks(), old(self).src(), old(self).cur());
                final(self).cur() == j && stmt_res_model(res) == r && final(self).errs().len() == old(
                    self,
                ).errs().len() + nd
            }),
        decreases old(self).toks().len() - old(self).cur(), 18int,
    {
        proof {
            reveal(sp_expr_stmt);
            reveal(sp_expr);
        }
        // an expression statement is an expression ended by a semicolon.
        match self.expr() {
            Ok(expr) => {
                if let Err(e) = self.consume(Token::Semicolon, "Expected ';' after expr.") {
                    return Err(e);
                }
                Ok(Stmt::Expr(expr))
            },
            Err(_) => {
                self.error_at(self.cursor, "Expected expr statement.");
                Err(())
            },
        }
    }
}

/// Expressions
impl Parser {
    #[verifier::rlimit(100)]
    #[verifier::spinoff_prover]
    fn grouping(&mut self) -> (res: Result<Expr, ()>)
        requires
            old(self).wf(),
        ensures
            parser_frame(*old(self), *final(self)),
            progressed(*old(self), *final(self)),
            ({
                let (j, r, nd) = sp_grouping(old(self).toks(), old(self).src(), old(self).cur());
                final(self).cur() == j && expr_res_model(res) == r && final(self).errs().len() == old(
                    self,
                ).errs().len() + nd
            }),
        decreases old(self).toks().len() - old(self).cur(), 11int,
    {
        proof {
            reveal(sp_grouping);
            reveal(sp_expr);
        }
        let ghost t0 = self.toks();
        let ghost s0 = self.src();
        let ghost i0 = self.cur();
        let expr = self.expr();
        proof {
            let (j, r, n) = sp_expr(t0, s0, i0);
            assert(self.cur() == j);
            assert(expr_res_model(expr) == r);
        }
        if let Err(e) = self.consume(Token::RightParen, "Expected ')' after expr.") {
            proof {
                let (j, r, n) = sp_expr(t0, s0, i0);
                assert(!(tok_at(t0, j) == Token::RightParen));
                assert(sp_grouping(t0, s0, i0) == (j, Err::<ExprModel, ()>(()), n + 1));
            }
            return Err(e);
        }
        proof {
            let (j, r, n) = sp_expr(t0, s0, i0);
            assert(0 <= j < t0.len() && tok_at(t0, j) == Token::RightParen);
            assert(sp_grouping(t0, s0, i0) == (j + 1, r, n));
        }
        expr
    }

    // primary => IDENTIFIER | NUMBER | STRING | "true" | "false" | "nil" | "(" expression ")"
    #[verifier::rlimit(50)]
    #[verifier::spinoff_prover]
    fn primary(&mut self) -> (res: Result<Expr, ()>)
        requires
            old(self).wf(),
        ensures
            parser_frame(*old(self), *final(self)),
            res is Ok ==> final(self).cur() > old(self).cur(),
            progressed(*old(self), *final(self)),
            ({
                let (j, r, nd) = sp_primary(old(self).toks(), old(self).src(), old(self).cur());
                final(self).cur() == j && expr_res_model(res) == r && final(self).errs().len() == old(
                    self,
                ).errs().len() + nd
            }),
        decreases old(self).toks().len() - old(self).cur(), 1int,
    {
        proof {
            reveal(sp_primary);
            reveal(sp_grouping);
        }
        match self.next() {
            Some(token) => {
                if token == Token::Nil {
                    Ok(Expr::Nil)
                } else if token == Token::False {
                    Ok(Expr::Boolean(false))
                } else if token == Token::True {
                    Ok(Expr::Boolean(true))
                } else if token == Token::Number {
                    // a fractional or overflowing literal fails here and is
                    // reported once, by the statement around it
                    match self.parse_number(self.cursor - 1) {
                        Ok(n) => Ok(Expr::Number(n)),
                        Err(_) => Err(()),
                    }
                } else if token == Token::String {
                    Ok(Expr::String(self.parse_string(self.cursor - 1)))
                } else if token == Token::Identifier {
                    Ok(Expr::Variable(self.parse_name(self.cursor - 1)))
                } else if token == Token::LeftParen {
                    self.grouping()
                } else {
                    Err(())
                }
            },
            None => {
                self.error_at(self.cursor, "Expected Primary Token");
                Err(())
            },
        }
    }

    // unary => ( "!" | "-" ) unary | primary ;
    #[verifier::rlimit(50)]
    #[verifier::spinoff_prover]
    fn unary(&mut self) -> (res: Result<Expr, ()>)
        requires
            old(self).wf(),
        ensures
            parser_frame(*old(self), *final(self)),
            res is Ok ==> final(self).cur() > old(self).cur(),
            progressed(*old(self), *final(self)),
            ({
                let (j, r, nd) = sp_unary(old(self).toks(), old(self).src(), old(self).cur());
                final(self).cur() == j && expr_res_model(res) == r && final(self).errs().len() == old(
                    self,
                ).errs().len() + nd
            }),
        decreases old(self).toks().len() - old(self).cur(), 2int,
    {
        proof {
            reveal(sp_unary);
            reveal(sp_primary);
        }
        if self.match_token(Token::Not) {
            match self.unary() {
                Ok(right) => Ok(Expr::Unary(UnaryOperator::Not, Box::new(right))),
                Err(e) => Err(e),
            }
        } else if self.match_token(Token::Minus) {
            match self.unary() {
                Ok(right) => Ok(Expr::Unary(UnaryOperator::Minus, Box::new(right))),
                Err(e) => Err(e),
            }
        } else {
            self.primary()
        }
    }

    // factor => unary ( ( "/" | "*" ) unary )* ;
    #[verifier::rlimit(50)]
    #[verifier::spinoff_prover]
    fn factor(&mut self) -> (res: Result<Expr, ()>)
        requires
            old(self).wf(),
        ensures
            parser_frame(*old(self), *final(self)),
            res is Ok ==> final(self).cur() > old(self).cur(),
            progressed(*old(self), *final(self)),
            ({
                let (j, r, nd) = sp_factor(old(self).toks(), old(self).src(), old(self).cur());
                final(self).cur() == j && expr_res_model(res) == r && final(self).errs().len() == old(
                    self,
                ).errs().len() + nd
            }),
        decreases old(self).toks().len() - old(self).cur(), 3int,
    {
        let mut left = match self.unary() {
            Ok(e) => e,
            Err(e) => {
                proof {
                    reveal(sp_factor);
                    reveal(sp_unary);
                }
                return Err(e);
            },
        };
        proof {
            reveal(sp_factor);
            reveal(sp_unary);
            reveal(sp_factor_rest);
            assert(({
                let full = sp_factor(old(self).toks(), old(self).src(), old(self).cur());
                let rem = sp_factor_rest(self.toks(), self.src(), left@, self.cur());
                full.0 == rem.0 && full.1 == rem.1 && full.2 == self.errs().len() - old(
                    self,
                ).errs().len() + rem.2
            }));
        }
        loop
            invariant
                self.wf(),
                self.toks() == old(self).toks(),
                self.src() == old(self).src(),
                self.cur() > old(self).cur(),
                old(self).errs().is_prefix_of(self.errs()),
                ({
                    let full = sp_factor(old(self).toks(), old(self).src(), old(self).cur());
                    let rem = sp_factor_rest(self.toks(), self.src(), left@, self.cur());
                    full.0 == rem.0 && full.1 == rem.1 && full.2 == self.errs().len() - old(
                        self,
                    ).errs().len() + rem.2
                }),
            ensures
                sp_factor(old(self).toks(), old(self).src(), old(self).cur()) == (
                    self.cur(),
                    Ok::<ExprModel, ()>(left@),
                    self.errs().len() - old(self).errs().len(),
                ),
            decreases self.toks().len() - self.cur(),
        {
            proof {
                reveal(sp_factor_rest);
                reveal(sp_unary);
            }
            let operator = if self.match_token(Token::Star) {
                BinaryOperator::Star
            } else if self.match_token(Token::Slash) {
                BinaryOperator::Slash
            } else {
                break ;
            };
            match self.unary() {
                Ok(right) => {
                    left = Expr::Binary(Box::new(left), operator, Box::new(right));
                },
                Err(e) => {
                    return Err(e);
                },
            }
        }
        Ok(left)
    }

    // term => factor ( ( "-" | "+" ) factor )* ;
    #[verifier::rlimit(50)]
    #[verifier::spinoff_prover]
    fn term(&mut self) -> (res: Result<Expr, ()>)
        requires
            old(self).wf(),
        ensures
            parser_frame(*old(self), *final(self)),
            res is Ok ==> final(self).cur() > old(self).cur(),
            progressed(*old(self), *final(self)),
            ({
                let (j, r, nd) = sp_term(old(self).toks(), old(self).src(), old(self).cur());
                final(self).cur() == j && expr_res_model(res) == r && final(self).errs().len() == old(
                    self,
                ).errs().len() + nd
            }),
        decreases old(self).toks().len() - old(self).cur(), 4int,
    {
        let mut left = match self.factor() {
            Ok(e) => e,
            Err(e) => {
                proof {
                    reveal(sp_term);
                    reveal(sp_factor);
                }
                return Err(e);
            },
        };
        proof {
            reveal(sp_term);
            reveal(sp_factor);
            reveal(sp_term_rest);
            assert(({
                let full = sp_term(old(self).toks(), old(self).src(), old(self).cur());
                let rem = sp_term_rest(self.toks(), self.src(), left@, self.cur());
                full.0 == rem.0 && full.1 == rem.1 && full.2 == self.errs().len() - old(
                    self,
                ).errs().len() + rem.2
            }));
        }
        loop
            invariant
                self.wf(),
                self.toks() == old(self).toks(),
                self.src() == old(self).src(),
                self.cur() > old(self).cur(),
                old(self).errs().is_prefix_of(self.errs()),
                ({
                    let full = sp_term(old(self).toks(), old(self).src(), old(self).cur());
                    let rem = sp_term_rest(self.toks(), self.src(), left@, self.cur());
                    full.0 == rem.0 && full.1 == rem.1 && full.2 == self.errs().len() - old(
                        self,
                    ).errs().len() + rem.2
                }),
            ensures
                sp_term(old(self).toks(), old(self).src(), old(self).cur()) == (
                    self.cur(),
                    Ok::<ExprModel, ()>(left@),
                    self.errs().len() - old(self).errs().len(),
                ),
            decreases self.toks().len() - self.cur(),
        {
            proof {
                reveal(sp_term_rest);
                reveal(sp_factor);
            }
            let operator = if self.match_token(Token::Plus) {
                BinaryOperator::Plus
            } else if self.match_token(Token::Minus) {
                BinaryOperator::Minus
            } else {
                break ;
            };
            match self.factor() {
                Ok(right) => {
                    left = Expr::Binary(Box::new(left), operator, Box::new(right));
                },
                Err(e) => {
                    return Err(e);
                },
            }
        }
        Ok(left)
    }

    // comparison => term ( ( ">" | ">=" | "<" | "<=" ) term )* ;
    #[verifier::rlimit(50)]
    #[verifier::spinoff_prover]
    fn comparison(&mut self) -> (res: Result<Expr, ()>)
        requires
            old(self).wf(),
        ensures
            parser_frame(*old(self), *final(self)),
            res is Ok ==> final(self).cur() > old(self).cur(),
            progressed(*old(self), *final(self)),
            ({
                let (j, r, nd) = sp_comparison(old(self).toks(), old(self).src(), old(self).cur());
                final(self).cur() == j && expr_res_model(res) == r && final(self).errs().len() == old(
                    self,
                ).errs().len() + nd
            }),
        decreases old(self).toks().len() - old(self).cur(), 5int,
    {
        let mut left = match self.term() {
            Ok(e) => e,
            Err(e) => {
                proof {
                    reveal(sp_comparison);
                    reveal(sp_term);
                }
                return Err(e);
            },
        };
        proof {
            reveal(sp_comparison);
            reveal(sp_term);
            reveal(sp_comparison_rest);
            assert(({
                let full = sp_comparison(old(self).toks(), old(self).src(), old(self).cur());
                let rem = sp_comparison_rest(self.toks(), self.src(), left@, self.cur());
                full.0 == rem.0 && full.1 == rem.1 && full.2 == self.errs().len() - old(
                    self,
                ).errs().len() + rem.2
            }));
        }
        loop
            invariant
                self.wf(),
                self.toks() == old(self).toks(),
                self.src() == old(self).src(),
                self.cur() > old(self).cur(),
                old(self).errs().is_prefix_of(self.errs()),
                ({
                    let full = sp_comparison(old(self).toks(), old(self).src(), old(self).cur());
                    let rem = sp_comparison_rest(self.toks(), self.src(), left@, self.cur());
                    full.0 == rem.0 && full.1 == rem.1 && full.2 == self.errs().len() - old(
                        self,
                    ).errs().len() + rem.2
                }),
            ensures
                sp_comparison(old(self).toks(), old(self).src(), old(self).cur()) == (
                    self.cur(),
                    Ok::<ExprModel, ()>(left@),
                    self.errs().len() - old(self).errs().len(),
                ),
            decreases self.toks().len() - self.cur(),
        {
            proof {
                reveal(sp_comparison_rest);
                reveal(sp_term);
            }
            let operator = if self.match_token(Token::Greater) {
                BinaryOperator::Greater
            } else if self.match_token(Token::GreaterEqual) {
                BinaryOperator::GreaterEqual
            } else if self.match_token(Token::Less) {
                BinaryOperator::Less
            } else if self.match_token(Token::LessEqual) {
                BinaryOperator::LessEqual
            } else {
                break ;
            };
            match self.term() {
                Ok(right) => {
                    left = Expr::Binary(Box::new(left), operator, Box::new(right));
                },
                Err(e) => {
                    return Err(e);
                },
            }
        }
        Ok(left)
    }

    // equality => comparison ( ( "!=" | "==" ) comparison )* ;
    #[verifier::rlimit(50)]
    #[verifier::spinoff_prover]
    fn equality(&mut self) -> (res: Result<Expr, ()>)
        requires
            old(self).wf(),
        ensures
            parser_frame(*old(self), *final(self)),
            res is Ok ==> final(self).cur() > old(self).cur(),
            progressed(*old(self), *final(self)),
            ({
                let (j, r, nd) = sp_equality(old(self).toks(), old(self).src(), old(self).cur());
                final(self).cur() == j && expr_res_model(res) == r && final(self).errs().len() == old(
                    self,
                ).errs().len() + nd
            }),
        decreases old(self).toks().len() - old(self).cur(), 6int,
    {
        let mut left = match self.comparison() {
            Ok(e) => e,
            Err(e) => {
                proof {
                    reveal(sp_equality);
                    reveal(sp_comparison);
                }
                return Err(e);
            },
        };
        proof {
            reveal(sp_equality);
            reveal(sp_comparison);
            reveal(sp_equality_rest);
            assert(({
                let full = sp_equality(old(self).toks(), old(self).src(), old(self).cur());
                let rem = sp_equality_rest(self.toks(), self.src(), left@, self.cur());
                full.0 == rem.0 && full.1 == rem.1 && full.2 == self.errs().len() - old(
                    self,
                ).errs().len() + rem.2
            }));
        }
        loop
            invariant
                self.wf(),
                self.toks() == old(self).toks(),
                self.src() == old(self).src(),
                self.cur() > old(self).cur(),
                old(self).errs().is_prefix_of(self.errs()),
                ({
                    let full = sp_equality(old(self).toks(), old(self).src(), old(self).cur());
                    let rem = sp_equality_rest(self.toks(), self.src(), left@, self.cur());
                    full.0 == rem.0 && full.1 == rem.1 && full.2 == self.errs().len() - old(
                        self,
                    ).errs().len() + rem.2
                }),
            ensures
                sp_equality(old(self).toks(), old(self).src(), old(self).cur()) == (
                    self.cur(),
                    Ok::<ExprModel, ()>(left@),
                    self.errs().len() - old(self).errs().len(),
                ),
            decreases self.toks().len() - self.cur(),
        {
            proof {
                reveal(sp_equality_rest);
                reveal(sp_comparison);
            }
            let operator = if self.match_token(Token::NotEqual) {
                BinaryOperator::NotEqual
            } else if self.match_token(Token::EqualEqual) {
                BinaryOperator::EqualEqual
            } else {
                break ;
            };
            match self.comparison() {
                Ok(right) => {
                    left = Expr::Binary(Box::new(left), operator, Box::new(right));
                },
                Err(e) => {
                    return Err(e);
                },
            }
        }
        Ok(left)
    }

    // logic_and => equality ( "and" equality )* ;
    #[verifier::rlimit(50)]
    #[verifier::spinoff_prover]
    fn logic_and(&mut self) -> (res: Result<Expr, ()>)
        requires
            old(self).wf(),
        ensures
            parser_frame(*old(self), *final(self)),
            res is Ok ==> final(self).cur() > old(self).cur(),
            progressed(*old(self), *final(self)),
            ({
                let (j, r, nd) = sp_logic_and(old(self).toks(), old(self).src(), old(self).cur());
                final(self).cur() == j && expr_res_model(res) == r && final(self).errs().len() == old(
                    self,
                ).errs().len() + nd
            }),
        decreases old(self).toks().len() - old(self).cur(), 7int,
    {
        let mut left = match self.equality() {
            Ok(e) => e,
            Err(e) => {
                proof {
                    reveal(sp_logic_and);
                    reveal(sp_equality);
                }
                return Err(e);
            },
        };
        proof {
            reveal(sp_logic_and);
            reveal(sp_equality);
            reveal(sp_and_rest);
            assert(({
                let full = sp_logic_and(old(self).toks(), old(self).src(), old(self).cur());
                let rem = sp_and_rest(self.toks(), self.src(), left@, self.cur());
                full.0 == rem.0 && full.1 == rem.1 && full.2 == self.errs().len() - old(
                    self,
                ).errs().len() + rem.2
            }));
        }
        loop
            invariant
                self.wf(),
                self.toks() == old(self).toks(),
                self.src() == old(self).src(),
                self.cur() > old(self).cur(),
                old(self).errs().is_prefix_of(self.errs()),
                ({
                    let full = sp_logic_and(old(self).toks(), old(self).src(), old(self).cur());
                    let rem = sp_and_rest(self.toks(), self.src(), left@, self.cur());
                    full.0 == rem.0 && full.1 == rem.1 && full.2 == self.errs().len() - old(
                        self,
                    ).errs().len() + rem.2
                }),
            ensures
                sp_logic_and(old(self).toks(), old(self).src(), old(self).cur()) == (
                    self.cur(),
                    Ok::<ExprModel, ()>(left@),
                    self.errs().len() - old(self).errs().len(),
                ),
            decreases self.toks().len() - self.cur(),
        {
            proof {
                reveal(sp_and_rest);
                reveal(sp_equality);
            }
            if !self.match_token(Token::And) {
                break ;
            }
            match self.equality() {
                Ok(right) => {
                    left = Expr::Logical(Box::new(left), LogicalOperator::And, Box::new(right));
                },
                Err(e) => {
                    return Err(e);
                },
            }
        }
        Ok(left)
    }

    // logic_or => logic_and ( "or" logic_and )* ;
    #[verifier::rlimit(50)]
    #[verifier::spinoff_prover]
    fn logic_or(&mut self) -> (res: Result<Expr, ()>)
        requires
            old(self).wf(),
        ensures
            parser_frame(*old(self), *final(self)),
            res is Ok ==> final(self).cur() > old(self).cur(),
            progressed(*old(self), *final(self)),
            ({
                let (j, r, nd) = sp_logic_or(old(self).toks(), old(self).src(), old(self).cur());
                final(self).cur() == j && expr_res_model(res) == r && final(self).errs().len() == old(
                    self,
                ).errs().len() + nd
            }),
        decreases old(self).toks().len() - old(self).cur(), 8int,
    {
        let mut left = match self.logic_and() {
            Ok(e) => e,
            Err(e) => {
                proof {
                    reveal(sp_logic_or);
                    reveal(sp_logic_and);
                }
                return Err(e);
            },
        };
        proof {
            reveal(sp_logic_or);
            reveal(sp_logic_and);
            reveal(sp_or_rest);
            assert(({
                let full = sp_logic_or(old(self).toks(), old(self).src(), old(self).cur());
                let rem = sp_or_rest(self.toks(), self.src(), left@, self.cur());
                full.0 == rem.0 && full.1 == rem.1 && full.2 == self.errs().len() - old(
                    self,
                ).errs().len() + rem.2
            }));
        }
        loop
            invariant
                self.wf(),
                self.toks() == old(self).toks(),
                self.src() == old(self).src(),
                self.cur() > old(self).cur(),
                old(self).errs().is_prefix_of(self.errs()),
                ({
                    let full = sp_logic_or(old(self).toks(), old(self).src(), old(self).cur());
                    let rem = sp_or_rest(self.toks(), self.src(), left@, self.cur());
                    full.0 == rem.0 && full.1 == rem.1 && full.2 == self.errs().len() - old(
                        self,
                    ).errs().len() + rem.2
                }),
            ensures
                sp_logic_or(old(self).toks(), old(self).src(), old(self).cur()) == (
                    self.cur(),
                    Ok::<ExprModel, ()>(left@),
                    self.errs().len() - old(self).errs().len(),
                ),
            decreases self.toks().len() - self.cur(),
        {
            proof {
                reveal(sp_or_rest);
                reveal(sp_logic_and);
            }
            if !self.match_token(Token::Or) {
                break ;
            }
            match self.logic_and() {
                Ok(right) => {
                    left = Expr::Logical(Box::new(left), LogicalOperator::Or, Box::new(right));
                },
                Err(e) => {
                    return Err(e);
                },
            }
        }
        Ok(left)
    }

    // assignment => IDENTIFIER '=' assignment | logic_or ;
    #[verifier::rlimit(50)]
    #[verifier::spinoff_prover]
    fn assignment(&mut self) -> (res: Result<Expr, ()>)
        requires
            old(self).wf(),
        ensures
            parser_frame(*old(self), *final(self)),
            res is Ok ==> final(self).cur() > old(self).cur(),
            progressed(*old(self), *final(self)),
            ({
                let (j, r, nd) = sp_assignment(old(self).toks(), old(self).src(), old(self).cur());
                final(self).cur() == j && expr_res_model(res) == r && final(self).errs().len() == old(
                    self,
                ).errs().len() + nd
            }),
        decreases old(self).toks().len() - old(self).cur(), 9int,
    {
        proof {
            reveal(sp_assignment);
            reveal(sp_logic_or);
        }
        let left_expr = match self.logic_or() {
            Ok(e) => e,
            Err(e) => {
                return Err(e);
            },
        };

        if self.match_token(Token::Equal) {
            let equal_index = self.cursor - 1;  // for error reporting

            // the right-hand side is itself an assignment: right-associative.
            let right_expr = match self.assignment() {
                Ok(e) => e,
                Err(e) => {
                    return Err(e);
                },
            };

            if let Expr::Variable(name) = left_expr {
                return Ok(Expr::Assignment(name, Box::new(right_expr)));
            }
            self.error_at(equal_index, "Invalid assignment target.");
            return Ok(left_expr);
        }

        Ok(left_expr)
    }

    /* expression     -> assignment;
     * assignment     -> IDENTIFIER '=' assignment | logic_or ;
     * logic_or       -> logic_and ( "or" logic_and )* ;
     * logic_and      -> equality ( "and" equality )* ;
     * equality       -> comparison ( ( "!=" | "==" ) comparison )* ;
     * comparison     -> term ( ( ">" | ">=" | "<" | "<=" ) term )* ;
     * term           -> factor ( ( "-" | "+" ) factor )* ;
     * factor         -> unary ( ( "/" | "*" ) unary )* ;
     * unary          -> ( "!" | "-" ) unary
     *                | primary ;
     * primary        -> NUMBER | STRING | "true" | "false" | "nil" | IDENTIFIER
     *                  | "(" expression ")" ; */
    #[verifier::rlimit(50)]
    #[verifier::spinoff_prover]
    pub fn expr(&mut self) -> (res: Result<Expr, ()>)
        requires
            old(self).wf(),
        ensures
            parser_frame(*old(self), *final(self)),
            res is Ok ==> final(self).cur() > old(self).cur(),
            progressed(*old(self), *final(self)),
            ({
                let (j, r, nd) = sp_expr(old(self).toks(), old(self).src(), old(self).cur());
                final(self).cur() == j && expr_res_model(res) == r && final(self).errs().len() == old(
                    self,
                ).errs().len() + nd
            }),
        decreases old(self).toks().len() - old(self).cur(), 10int,
    {
        proof {
            reveal(sp_expr);
            reveal(sp_assignment);
        }
        self.assignment()
    }
}

/// Tokens
impl Parser {
    /// Discards tokens until a statement boundary: just after a `;`, or
    /// just before a keyword that can start a statement, or the end.
    fn synchronize(&mut self)
        requires
            old(self).wf(),
        ensures
            parser_frame(*old(self), *final(self)),
            final(self).cur() == sp_synchronize(old(self).toks(), old(self).cur()),
            final(self).errs() == old(self).errs(),
    {
        proof {
            reveal(sp_synchronize);
        }
        while !self.is_at_end()
            invariant
                self.wf(),
                self.toks() == old(self).toks(),
                self.src() == old(self).src(),
                self.cur() >= old(self).cur(),
                self.errs() == old(self).errs(),
                sp_synchronize(self.toks(), old(self).cur()) == sp_synchronize(
                    self.toks(),
                    self.cur(),
                ),
            decreases self.toks().len() - self.cur(),
        {
            proof {
                reveal(sp_synchronize);
            }
            if self.cursor > 0 && self.previous_token() == Token::Semicolon {
                return ;
            }

            match self.peek() {
                Some(token) => {
                    if token == Token::For || token == Token::Fun || token == Token::If || token
                        == Token::Print || token == Token::Return || token == Token::Let {
                        return ;
                    }
                    self.advance();
                },
                None => {
                    return ;
                },
            }
        }
        proof {
            reveal(sp_synchronize);
        }
    }

    fn match_token(&mut self, token: Token) -> (r: bool)
        requires
            old(self).wf(),
        ensures
            final(self).toks() == old(self).toks(),
            final(self).src() == old(self).src(),
            final(self).errs() == old(self).errs(),
            final(self).wf(),
            r == (!old(self).at_eof() && old(self).toks()[old(self).cur()].spec_value() == token),
            final(self).cur() == if r {
                old(self).cur() + 1
            } else {
                old(self).cur()
            },
    {
        match self.peek() {
            Some(t) => {
                if t == token {
                    self.advance();
                    true
                } else {
                    false
                }
            },
            None => false,
        }
    }

    fn consume(&mut self, token: Token, msg: &str) -> (r: Result<(), ()>)
        requires
            old(self).wf(),
        ensures
            parser_frame(*old(self), *final(self)),
            r is Ok <==> !old(self).at_eof() && old(self).toks()[old(self).cur()].spec_value()
                == token,
            r is Ok ==> final(self).cur() == old(self).cur() + 1 && final(self).errs() == old(
                self,
            ).errs(),
            r is Err ==> final(self).cur() == old(self).cur() && final(self).errs().len() == old(
                self,
            ).errs().len() + 1,
    {
        let hit = match self.peek() {
            Some(t) => t == token,
            None => false,
        };
        if hit {
            self.advance();
            Ok(())
        } else {
            self.error_at(self.cursor, msg);
            Err(())
        }
    }

    fn next(&mut self) -> (r: Option<Token>)
        requires
            old(self).wf(),
        ensures
            final(self).toks() == old(self).toks(),
            final(self).src() == old(self).src(),
            final(self).errs() == old(self).errs(),
            final(self).wf(),
            match r {
                Some(t) => !old(self).at_eof() && t == old(self).toks()[old(
                    self,
                ).cur()].spec_value() && final(self).cur() == old(self).cur() + 1,
                None => old(self).at_eof() && final(self).cur() == old(self).cur(),
            },
    {
        match self.peek() {
            Some(token) => {
                self.advance();
                Some(token)
            },
            None => None,
        }
    }

    fn advance(&mut self)
        requires
            old(self).wf(),
            !old(self).at_eof(),
        ensures
            final(self).toks() == old(self).toks(),
            final(self).src() == old(self).src(),
            final(self).errs() == old(self).errs(),
            final(self).wf(),
            final(self).cur() == old(self).cur() + 1,
    {
        let _bound = self.tokens.len();
        self.cursor = self.cursor + 1;
    }

    fn is_at_end(&self) -> (r: bool)
        requires
            self.wf(),
        ensures
            r == self.at_eof(),
    {
        self.tokens[self.cursor].value() == Token::Eof
    }

    fn peek(&self) -> (r: Option<Token>)
        requires
            self.wf(),
        ensures
            match r {
                Some(t) => !self.at_eof() && t == self.toks()[self.cur()].spec_value(),
                None => self.at_eof(),
            },
    {
        if !self.is_at_end() {
            Some(self.tokens[self.cursor].value())
        } else {
            None
        }
    }

    fn check(&self, token: Token) -> (r: bool)
        requires
            self.wf(),
        ensures
            r == (!self.at_eof() && self.toks()[self.cur()].spec_value() == token),
    {
        match self.peek() {
            Some(t) => t == token,
            None => false,
        }
    }

    fn previous_token(&self) -> (r: Token)
        requires
            self.wf(),
            self.cur() >= 1,
        ensures
            r == self.toks()[self.cur() - 1].spec_value(),
    {
        self.tokens[self.cursor - 1].value()
    }

    /// The text of the string literal at token `at`: the characters
    /// strictly between its quotes; empty when the literal was
    /// unterminated and empty.
    fn parse_string(&self, at: usize) -> (r: String)
        requires
            self.wf(),
            (at as int) < self.toks().len() - 1,
        ensures
            ({
                let start = self.toks()[at as int].spec_start();
                let end = self.toks()[at as int].spec_end();
                r@ == if start + 1 <= end {
                    self.src().subrange(start + 1, end)
                } else {
                    Seq::<char>::empty()
                }
            }),
    {
        let token = &self.tokens[at];
        let start = token.start_pos();
        let end = token.end_pos();
        let _bound = self.source.as_str().unicode_len();
        if start + 1 <= end {
            String::from_str(self.source.as_str().substring_char(start + 1, end))
        } else {
            let r = String::new();
            proof {
                assert(r@ =~= Seq::<char>::empty());
            }
            r
        }
    }

    /// The text of the identifier at token `at`.
    fn parse_name(&self, at: usize) -> (r: String)
        requires
            self.wf(),
            (at as int) < self.toks().len() - 1,
        ensures
            r@ == self.src().subrange(
                self.toks()[at as int].spec_start(),
                self.toks()[at as int].spec_end() + 1,
            ),
    {
        let token = &self.tokens[at];
        let start = token.start_pos();
        let end = token.end_pos();
        let _bound = self.source.as_str().unicode_len();
        String::from_str(self.source.as_str().substring_char(start, end + 1))
    }

    /// The value of the number literal at token `at`: defined exactly
    /// when its text is nothing but digits and the value fits 64 signed
    /// bits; a fractional literal or an overflowing one is an error for
    /// the caller to report.
    fn parse_number(&self, at: usize) -> (r: Result<i64, ()>)
        requires
            self.wf(),
            (at as int) < self.toks().len() - 1,
        ensures
            ({
                let text = self.src().subrange(
                    self.toks()[at as int].spec_start(),
                    self.toks()[at as int].spec_end() + 1,
                );
                match r {
                    Ok(n) => text.len() >= 1 && is_digit_seq(text) && n as int == digits_value(
                        text,
                    ),
                    Err(_) => !(text.len() >= 1 && is_digit_seq(text) && digits_value(text)
                        <= i64::MAX),
                }
            }),
    {
        let token = &self.tokens[at];
        let start = token.start_pos();
        let end = token.end_pos();
        let _bound = self.source.as_str().unicode_len();
        let ghost text = self.src().subrange(start as int, end as int + 1);
        let n = end + 1 - start;
        let mut acc: i64 = 0;
        let mut k: usize = 0;
        while k < n
            invariant
                self.wf(),
                start as int == self.toks()[at as int].spec_start(),
                end as int == self.toks()[at as int].spec_end(),
                start <= end < self.src().len(),
                n == end + 1 - start,
                k <= n,
                text == self.src().subrange(start as int, end as int + 1),
                is_digit_seq(text.take(k as int)),
                acc as int == digits_value(text.take(k as int)),
                acc >= 0,
            decreases n - k,
        {
            let c = self.source.as_str().get_char(start + k);
            proof {
                assert(text[k as int] == self.src()[start as int + k]);
            }
            if !crate::lexer::char_is_digit(c) {
                proof {
                    assert(!is_digit_seq(text));
                }
                return Err(());
            }
            let d = ((c as u32) - ('0' as u32)) as i64;
            let next_acc = match acc.checked_mul(10) {
                Some(m) => match m.checked_add(d) {
                    Some(a) => a,
                    None => {
                        proof {
                            overflow_reasoning(text, k as int);
                        }
                        return Err(());
                    },
                },
                None => {
                    proof {
                        overflow_reasoning(text, k as int);
                    }
                    return Err(());
                },
            };
            proof {
                assert(text.take(k as int + 1).drop_last() =~= text.take(k as int));
                assert(forall|t: int|
                    0 <= t < k + 1 ==> #[trigger] text.take(k as int + 1)[t] == text[t]);
            }
            acc = next_acc;
            k = k + 1;
        }
        if n == 0 {
            return Err(());
        }
        proof {
            assert(text.take(n as int) =~= text);
        }
        Ok(acc)
    }

    /// The 1-based line of a source position: one more than the newlines
    /// before or at it.
    fn get_line(&self, token_start_pos: usize) -> (r: usize)
        requires
            self.wf(),
        ensures
            r as int == if line_number(self.src(), token_start_pos as int) <= usize::MAX {
                line_number(self.src(), token_start_pos as int)
            } else {
                usize::MAX as int
            },
            r >= 1,
    {
        let len = self.source.as_str().unicode_len();
        let lim = if token_start_pos < len {
            token_start_pos + 1
        } else {
            len
        };
        let mut line: usize = 1;
        let mut i: usize = 0;
        while i < lim
            invariant
                lim <= self.src().len(),
                i <= lim,
                line >= 1,
                line as int == if 1 + newline_count(self.src(), i as int) <= usize::MAX {
                    1 + newline_count(self.src(), i as int)
                } else {
                    usize::MAX as int
                },
            decreases lim - i,
        {
            if self.source.as_str().get_char(i) == '\n' {
                if line < usize::MAX {
                    line = line + 1;
                }
            }
            i = i + 1;
        }
        line
    }

    /// Appends one diagnostic in the fixed format: the message, then the
    /// 1-based line of the offending token, then the token's name.
    fn error_at(&mut self, at: usize, msg: &str)
        requires
            old(self).wf(),
            (at as int) < old(self).toks().len(),
        ensures
            final(self).toks() == old(self).toks(),
            final(self).src() == old(self).src(),
            final(self).cur() == old(self).cur(),
            final(self).wf(),
            final(self).errs().len() == old(self).errs().len() + 1,
            old(self).errs().is_prefix_of(final(self).errs()),
            final(self).errs().last()@ == diagnostic_text(
                old(self).src(),
                msg@,
                old(self).toks()[at as int].spec_value(),
                old(self).toks()[at as int].spec_start(),
            ),
    {
        let token = &self.tokens[at];
        let line_number = self.get_line(token.start_pos());
        let name = token_name(token.value());

        let mut m = String::from_str("\nParseErr: ");
        m.append(msg);
        m.append("\nAtLine [");
        push_decimal(&mut m, line_number as u64);
        m.append("] AtToken[");
        m.append(name);
        m.append("]\n\n");
        proof {
            assert(m@ =~= diagnostic_text(
                self.src(),
                msg@,
                self.toks()[at as int].spec_value(),
                self.toks()[at as int].spec_start(),
            ));
        }
        self.errors.push(m);
        proof {
            assert(old(self).errs().is_prefix_of(final(self).errs())) by {
                assert(final(self).errs().subrange(0, old(self).errs().len() as int) =~= old(
                    self,
                ).errs());
            }
        }
    }
}

/// The display name of a token kind, for diagnostics.
fn token_name(t: Token) -> (r: &'static str)
    ensures
        r@ == spec_token_name(t),
{
    match t {
        Token::LeftParen => "LeftParen",
        Token::RightParen => "RightParen",
        Token::LeftBracket => "LeftBracket",
        Token::RightBracket => "RightBracket",
        Token::LeftBrace => "LeftBrace",
        Token::RightBrace => "RightBrace",
        Token::Comma => "Comma",
        Token::Dot => "Dot",
        Token::Minus => "Minus",
        Token::Plus => "Plus",
        Token::Semicolon => "Semicolon",
        Token::Slash => "Slash",
        Token::Star => "Star",
        Token::Not => "Not",
        Token::NotEqual => "NotEqual",
        Token::Equal => "Equal",
        Token::EqualEqual => "EqualEqual",
        Token::Greater => "Greater",
        Token::GreaterEqual => "GreaterEqual",
        Token::Less => "Less",
        Token::LessEqual => "LessEqual",
        Token::Identifier => "Identifier",
        Token::String => "String",
        Token::Number => "Number",
        Token::And => "And",
        Token::Else => "Else",
        Token::False => "False",
        Token::For => "For",
        Token::Fun => "Fun",
        Token::If => "If",
        Token::In => "In",
        Token::Nil => "Nil",
        Token::Or => "Or",
        Token::Print => "Print",
        Token::Return => "Return",
        Token::True => "True",
        Token::Let => "Let",
        Token::Error => "Error",
        Token::Eof => "Eof",
    }
}

proof fn overflow_reasoning(text: Seq<char>, k: int)
    requires
        0 <= k < text.len(),
        is_digit_seq(text.take(k)),
        digits_value(text.take(k)) >= 0,
        is_digit_char(text[k]),
        digits_value(text.take(k)) * 10 + digit_val(text[k]) > i64::MAX,
    ensures
        !(is_digit_seq(text) && digits_value(text) <= i64::MAX),
{
    if is_digit_seq(text) {
        assert(text.take(k + 1).drop_last() =~= text.take(k));
        assert(digits_value(text.take(k + 1)) == digits_value(text.take(k)) * 10 + digit_val(
            text[k],
        ));
        lemma_digits_value_prefix(text, k + 1);
    }
}

} // verus!
