use rox::ast::BinaryOperator::{Plus, Slash, Star};
use rox::ast::Expr;
use rox::ast::Expr::{Binary, Number};
use rox::ast::Stmt;
use rox::ast::UnaryOperator;
use rox::parser::parse;
use rox::parser::Parser;

fn parse_expression(src: &str) -> Result<Expr, ()> {
    let mut parser = Parser::new(src);
    parser.expr()
}

#[test]
fn unary() {
    let left = parse_expression("-10 + 2");
    let right = Binary(
        Box::new(Expr::Unary(UnaryOperator::Minus, Box::new(Number(10)))),
        Plus,
        Box::new(Number(2)),
    );

    assert_eq!(left, Ok(right));
}

#[test]
fn unary_2() {
    let left = parse_expression("-1;");
    let right = Expr::Unary(UnaryOperator::Minus, Box::new(Number(1)));

    assert_eq!(left, Ok(right));
}

#[test]
fn binary() {
    let left = parse_expression("10 + 2");
    let right = Binary(Box::new(Number(10)), Plus, Box::new(Number(2)));

    assert_eq!(left, Ok(right));
}

#[test]
fn binary_2() {
    let left = parse_expression("10 / 2 * 5");
    let right = Binary(
        Box::new(Binary(Box::new(Number(10)), Slash, Box::new(Number(2)))),
        Star,
        Box::new(Number(5)),
    );

    assert_eq!(left, Ok(right));
}

#[test]
fn binary_grouping() {
    let left = parse_expression("10 / (2 * 5)");
    let right = Binary(
        Box::new(Number(10)),
        Slash,
        Box::new(Binary(Box::new(Number(2)), Star, Box::new(Number(5)))),
    );

    assert_eq!(left, Ok(right));
}

#[test]
fn binary_unary() {
    let left = parse_expression("10 / -(2 * 5) + 2");
    let right = Binary(
        Box::new(Binary(
            Box::new(Number(10)),
            Slash,
            Box::new(Expr::Unary(
                UnaryOperator::Minus,
                Box::new(Binary(Box::new(Number(2)), Star, Box::new(Number(5)))),
            )),
        )),
        Plus,
        Box::new(Number(2)),
    );

    assert_eq!(left, Ok(right));
}

/// One malformed statement costs exactly one diagnostic, and the
/// well-formed statement after it still appears in the program.
#[test]
fn one_bad_statement_one_diagnostic() {
    let (stmts, errors) = Parser::new("let ; print 1;").parse();
    assert_eq!(errors.len(), 1);
    assert_eq!(stmts.len(), 1);
    assert!(matches!(stmts[0], Stmt::Print(_)));
}

#[test]
fn assignment_is_right_associative() {
    let parsed = parse_expression("a = b = 3");
    let expected = Expr::Assignment(
        "a".to_string(),
        Box::new(Expr::Assignment("b".to_string(), Box::new(Number(3)))),
    );
    assert_eq!(parsed, Ok(expected));
}

#[test]
fn invalid_assignment_target_is_non_fatal() {
    let (stmts, errors) = Parser::new("1 = 2; print 3;").parse();
    assert_eq!(errors.len(), 1);
    assert_eq!(stmts.len(), 2);
}

#[test]
fn fractional_literal_is_a_recoverable_diagnostic() {
    let (stmts, errors) = Parser::new("print 1.5; print 2;").parse();
    assert_eq!(errors.len(), 1);
    assert_eq!(stmts.len(), 1);
    assert!(matches!(stmts[0], Stmt::Print(_)));
}

#[test]
fn overflowing_literal_is_a_recoverable_diagnostic() {
    let (stmts, errors) = Parser::new("print 99999999999999999999; print 2;").parse();
    assert_eq!(errors.len(), 1);
    assert_eq!(stmts.len(), 1);
}

#[test]
fn well_formed_source_yields_zero_diagnostics() {
    let (stmts, errors) =
        Parser::new("let x = 1; { print x; } if (x == 1) print x; else x = 2;").parse();
    assert_eq!(errors.len(), 0);
    assert_eq!(stmts.len(), 3);
}

#[test]
fn diagnostics_carry_the_fixed_format() {
    let (_stmts, errors) = Parser::new("let ;").parse();
    assert_eq!(errors.len(), 1);
    assert_eq!(
        errors[0],
        "\nParseErr: Expected Identifier\nAtLine [1] AtToken[Semicolon]\n\n"
    );
}

#[test]
fn string_and_identifier_literals_keep_their_text() {
    let parsed = parse_expression("\"hello\"");
    assert_eq!(parsed, Ok(Expr::String("hello".to_string())));
    let parsed = parse_expression("some_name");
    assert_eq!(parsed, Ok(Expr::Variable("some_name".to_string())));
}

#[test]
fn if_and_logic_parse() {
    let (stmts, errors) = Parser::new("if (a and b or c) print 1; else { print 2; }").parse();
    assert_eq!(errors.len(), 0);
    assert_eq!(stmts.len(), 1);
    assert!(matches!(stmts[0], Stmt::If(..)));
}

#[test]
fn diagnostics_name_the_line() {
    let (_stmts, errors) = Parser::new("print 1;\nprint ;\n").parse();
    assert_eq!(errors.len(), 1);
    assert!(errors[0].contains("AtLine [2]"));
}

#[test]
fn parse_returns_the_program() {
    let stmts = parse("print 1; let x = 2;");
    assert_eq!(stmts.len(), 2);
    assert!(matches!(stmts[0], Stmt::Print(_)));
    assert!(matches!(stmts[1], Stmt::Let(..)));
}
