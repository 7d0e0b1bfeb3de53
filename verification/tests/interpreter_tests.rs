use rox::interpreter::Interpreter;
use rox::value::Value;

fn run(src: &str) -> Vec<String> {
    Interpreter::new().interpret(src)
}

fn lines(v: &[&str]) -> Vec<String> {
    v.iter().map(|s| s.to_string()).collect()
}

#[test]
fn precedence_left_associative() {
    assert_eq!(run("print 10 / 2 * 5;"), lines(&["25"]));
    assert_eq!(run("print 10 / (2 * 5);"), lines(&["1"]));
}

#[test]
fn unary_binds_tighter_than_binary() {
    assert_eq!(run("print -10 + 2;"), lines(&["-8"]));
}

#[test]
fn assignment_chains_and_yields_its_value() {
    assert_eq!(
        run("let a = 1; let b = 2; print a = b = 3; print a; print b;"),
        lines(&["3", "3", "3"])
    );
}

#[test]
fn block_scoping_shadows_and_restores() {
    assert_eq!(
        run("let x = 1; { let x = 2; print x; } print x;"),
        lines(&["2", "1"])
    );
}

#[test]
fn redefinition_in_one_scope_replaces() {
    assert_eq!(run("let x = 1; let x = 2; print x;"), lines(&["2"]));
}

#[test]
fn assignment_reaches_the_outer_scope() {
    assert_eq!(run("let x = 1; { x = 5; } print x;"), lines(&["5"]));
}

#[test]
fn uninitialized_access_reports_and_continues() {
    assert_eq!(
        run("let x; print x; print 7;"),
        lines(&["RuntimeErr: Variable is not initialized.", "7"])
    );
}

#[test]
fn undefined_variable_reports() {
    assert_eq!(
        run("print zz;"),
        lines(&["RuntimeErr: Variable is undefined."])
    );
    assert_eq!(
        run("zz = 1;"),
        lines(&["RuntimeErr: Variable is undefined."])
    );
}

#[test]
fn and_short_circuits_on_false() {
    // the right operand would fail if it were evaluated
    assert_eq!(run("print false and zz;"), lines(&["false"]));
    assert_eq!(run("print true or zz;"), lines(&["true"]));
}

#[test]
fn and_falls_through_otherwise() {
    assert_eq!(run("print true and false;"), lines(&["false"]));
    assert_eq!(run("print false or true;"), lines(&["true"]));
}

#[test]
fn type_errors_isolate_statements() {
    assert_eq!(
        run("print \"true\" + 1; print 5;"),
        lines(&["RuntimeErr: Operands have unsupported types.", "5"])
    );
}

#[test]
fn string_concatenation_and_equality() {
    assert_eq!(run("print \"a\" + \"b\";"), lines(&["ab"]));
    assert_eq!(run("print \"a\" == \"a\";"), lines(&["true"]));
    assert_eq!(run("print \"a\" == 1;"), lines(&["false"]));
    assert_eq!(run("print \"a\" != 1;"), lines(&["true"]));
}

#[test]
fn rendering_of_atoms() {
    assert_eq!(
        run("print 0; print -5; print 1234567890; print true; print false; print nil;"),
        lines(&["0", "-5", "1234567890", "true", "false", "nil"])
    );
}

#[test]
fn if_takes_the_right_branch() {
    assert_eq!(run("if (true) print 1; else print 2;"), lines(&["1"]));
    assert_eq!(run("if (false) print 1; else print 2;"), lines(&["2"]));
    assert_eq!(run("if (false) print 1;"), lines(&[]));
    assert_eq!(run("if (1 < 2) print 1;"), lines(&["1"]));
}

#[test]
fn non_boolean_condition_is_a_type_error() {
    assert_eq!(
        run("if (1) print 1; print 9;"),
        lines(&["RuntimeErr: Operands have unsupported types.", "9"])
    );
}

#[test]
fn division_by_zero_reports() {
    assert_eq!(
        run("print 1 / 0; print 2;"),
        lines(&["RuntimeErr: Division by zero.", "2"])
    );
}

#[test]
fn arithmetic_overflow_reports() {
    assert_eq!(
        run("print 9223372036854775807 + 1;"),
        lines(&["RuntimeErr: Arithmetic overflow."])
    );
    assert_eq!(
        run("let m = 0 - 9223372036854775807; print m - 2;"),
        lines(&["RuntimeErr: Arithmetic overflow."])
    );
}

#[test]
fn smallest_number_renders_and_guards_division() {
    // 64-bit minimum: reachable only by arithmetic, never as a literal
    assert_eq!(
        run("let m = 0 - 9223372036854775807 - 1; print m;"),
        lines(&["-9223372036854775808"])
    );
    assert_eq!(
        run("let m = 0 - 9223372036854775807 - 1; print m / -1;"),
        lines(&["RuntimeErr: Arithmetic overflow."])
    );
    assert_eq!(run("print 9223372036854775807;"), lines(&["9223372036854775807"]));
}

#[test]
fn unary_not_needs_a_boolean() {
    assert_eq!(run("print !true;"), lines(&["false"]));
    assert_eq!(
        run("print !1;"),
        lines(&["RuntimeErr: Operands have unsupported types."])
    );
}

#[test]
fn unary_minus_negates_numbers() {
    assert_eq!(run("print -(2 * 5);"), lines(&["-10"]));
    assert_eq!(
        run("print -nil;"),
        lines(&["RuntimeErr: Operands have unsupported types."])
    );
}

#[test]
fn comparisons_follow_the_total_order() {
    assert_eq!(run("print 1 < 2; print 2 <= 2; print 3 > 4; print 3 >= 3;"),
        lines(&["true", "true", "false", "true"]));
    // kinds rank boolean < number < nil < string
    assert_eq!(run("print true < 0; print 1 < nil; print nil < \"\";"),
        lines(&["true", "true", "true"]));
    assert_eq!(run("print \"abc\" < \"abd\"; print \"ab\" < \"abc\"; print \"b\" < \"ab\";"),
        lines(&["true", "true", "false"]));
}

#[test]
fn parse_diagnostics_come_before_output() {
    let out = run("print ;\nprint 3;");
    assert_eq!(out.len(), 2);
    assert!(out[0].contains("ParseErr"));
    assert_eq!(out[1], "3");
}

#[test]
fn scopes_close_even_when_a_statement_fails() {
    // the block fails in the middle; its scope is popped all the same,
    // so the outer x is visible afterwards
    assert_eq!(
        run("let x = 1; { let x = 2; print zz; } print x;"),
        lines(&["RuntimeErr: Variable is undefined.", "1"])
    );
}

#[test]
fn value_rendering_matches_print() {
    assert_eq!(Value::Num(-42).render(), "-42");
    assert_eq!(Value::Bool(true).render(), "true");
    assert_eq!(Value::Nil.render(), "nil");
    assert_eq!(Value::String("hi".to_string()).render(), "hi");
}

#[test]
fn empty_and_comment_only_sources_run_quietly() {
    assert_eq!(run(""), lines(&[]));
    assert_eq!(run("// nothing here"), lines(&[]));
}
