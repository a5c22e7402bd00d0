use minilisp::ast::{Ast, AstTrait};
use minilisp::builtins::{evaluate_builtin, EvalResult};
use minilisp::token::{Token, TokenTrait, Type};

fn call(op: &str, args: &[&str]) -> Ast {
    let mut node = Ast::new(Token::new_preset("(".to_string(), Type::Oparen));
    node.push_child(Ast::new(Token::new_preset(op.to_string(), Type::Func)));
    for a in args {
        node.push_child(Ast::new(Token::new_preset(a.to_string(), Type::Number)));
    }
    node
}

fn result_text(r: EvalResult<Ast>) -> String {
    let node = r.unwrap_push();
    node.node_val.unwrap().get_lexed()
}

fn run(op: &str, args: &[&str]) -> EvalResult<Ast> {
    let mut out = String::new();
    let r = evaluate_builtin(call(op, args), &mut out);
    assert_eq!(out, "");
    r
}

#[test]
fn add_folds_integers() {
    assert_eq!(result_text(run("add", &["1", "2", "3"])), "6");
}

#[test]
fn add_promotes_on_decimal_point() {
    assert_eq!(result_text(run("add", &["1.5", "2"])), "3.5");
}

#[test]
fn sub_is_a_left_fold() {
    assert_eq!(result_text(run("sub", &["10", "2", "3"])), "5");
}

#[test]
fn sub_handles_decimals_and_sign() {
    assert_eq!(result_text(run("sub", &["1.5", "2"])), "-0.5");
    assert_eq!(result_text(run("sub", &["10", "1.5"])), "8.5");
}

#[test]
fn mult_folds() {
    assert_eq!(result_text(run("mult", &["2", "3", "4"])), "24");
    assert_eq!(result_text(run("mult", &["1.5", "2"])), "3");
}

#[test]
fn add_is_commutative_over_argument_order() {
    let a = result_text(run("add", &["1.5", "2"]));
    let b = result_text(run("add", &["2", "1.5"]));
    assert_eq!(a, b);
    let c = result_text(run("mult", &["4", "2.5"]));
    let d = result_text(run("mult", &["2.5", "4"]));
    assert_eq!(c, d);
}

#[test]
fn div_truncates_integers() {
    assert_eq!(result_text(run("div", &["10", "4"])), "2");
    assert_eq!(result_text(run("div", &["-7", "2"])), "-3");
}

#[test]
fn div_promotes_on_decimal_operand() {
    assert_eq!(result_text(run("div", &["10", "4.0"])), "2.5");
    assert_eq!(result_text(run("div", &["10", "4", "2.0"])), "1");
}

#[test]
fn div_by_zero_is_an_error() {
    assert!(run("div", &["7", "0"]).is_error());
    assert!(run("div", &["7", "0.0"]).is_error());
}

#[test]
fn arithmetic_needs_at_least_one_operand() {
    assert!(run("add", &[]).is_error());
    assert!(run("sub", &[]).is_error());
    assert!(run("mult", &[]).is_error());
    assert!(run("div", &[]).is_error());
}

#[test]
fn non_numeric_operand_is_an_error() {
    let mut node = Ast::new(Token::new_preset("(".to_string(), Type::Oparen));
    node.push_child(Ast::new(Token::new_preset("add".to_string(), Type::Func)));
    node.push_child(Ast::new(Token::new_preset("pear".to_string(), Type::Func)));
    let mut out = String::new();
    assert!(evaluate_builtin(node, &mut out).is_error());
}

#[test]
fn negative_numbers_fold() {
    assert_eq!(result_text(run("add", &["-5", "3"])), "-2");
    assert_eq!(result_text(run("mult", &["-2", "3"])), "-6");
}

#[test]
fn trailing_fraction_zeros_are_stripped() {
    assert_eq!(result_text(run("add", &["1.5", "2.5"])), "4");
    assert_eq!(result_text(run("add", &["1.50", "2.25"])), "3.75");
    assert_eq!(result_text(run("sub", &["1.5", "1.5"])), "0");
}

#[test]
fn unknown_operator_is_ignored() {
    assert!(run("frobnicate", &["1", "2"]).is_ignore());
}

#[test]
fn bare_point_numerals_have_values() {
    assert_eq!(result_text(run("add", &["5.", "2"])), "7");
    assert_eq!(result_text(run("add", &[".5", "2"])), "2.5");
    assert_eq!(result_text(run("sub", &["-.5", ".5"])), "-1");
}

#[test]
fn point_only_and_sign_only_are_errors() {
    assert!(run("add", &[".", "1"]).is_error());
    assert!(run("add", &["-", "1"]).is_error());
    assert!(run("add", &["-.", "1"]).is_error());
}

#[test]
fn value_out_of_machine_range_is_an_error() {
    // Forty-five digits cannot be held in one machine word.
    assert!(run("add", &["999999999999999999999999999999999999999999999", "1"]).is_error());
}

#[test]
fn single_operand_folds_pass_it_through() {
    assert_eq!(result_text(run("add", &["4"])), "4");
    assert_eq!(result_text(run("sub", &["4"])), "4");
    assert_eq!(result_text(run("mult", &["4"])), "4");
    assert_eq!(result_text(run("div", &["4"])), "4");
    assert_eq!(result_text(run("div", &["4.50"])), "4.5");
}

#[test]
fn a_bare_point_promotes_division() {
    // The text carries a decimal point even with no fractional digits,
    // so the quotient is decimal, not truncating.
    assert_eq!(result_text(run("div", &["7", "2."])), "3.5");
    assert_eq!(result_text(run("div", &["7", "2"])), "3");
}
