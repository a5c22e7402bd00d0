use minilisp::ast::{Ast, AstTrait};
use minilisp::eval::{Eval, EvalTrait};
use minilisp::lex::{Lexer, LexerTrait};
use minilisp::parse::{Parser, ParserTrait};
use minilisp::token::{Token, Type};

fn run_program(src: &str) -> (bool, String) {
    let lexer = Lexer::new(src);
    let toks = lexer.lex().expect("program must lex");
    let mut parser = Parser::new();
    for tok in toks {
        assert!(parser.parse_token(tok), "program must parse");
    }
    let tree = parser.get_parsed_tree().expect("one tree");
    let mut ev = Eval::new(tree);
    ev.eval();
    let done = ev.is_evaluated();
    (done, ev.output)
}

#[test]
fn println_writes_each_child_with_newline() {
    let (done, out) = run_program("(println \"hi\")");
    assert!(done);
    assert_eq!(out, "hi\n");
}

#[test]
fn print_writes_without_newline() {
    let (done, out) = run_program("(print \"a\" \"b\")");
    assert!(done);
    assert_eq!(out, "ab");
}

#[test]
fn nested_call_result_feeds_outer_call() {
    let (done, out) = run_program("(println (add 1 2))");
    assert!(done);
    assert_eq!(out, "3\n");
}

#[test]
fn deeply_nested_arithmetic() {
    let (done, out) = run_program("(println (add (mult 2 3) (sub 10 4) 1))");
    assert!(done);
    assert_eq!(out, "13\n");
}

#[test]
fn decimal_promotion_end_to_end() {
    let (done, out) = run_program("(println (add 1.5 2))");
    assert!(done);
    assert_eq!(out, "3.5\n");
}

#[test]
fn top_level_forms_run_in_order() {
    let (done, out) = run_program("(println 1) (println 2)");
    assert!(done);
    assert_eq!(out, "1\n2\n");
}

#[test]
fn unknown_operator_is_silent_and_does_not_halt() {
    let (done, out) = run_program("(frobnicate 1 2) (println \"after\")");
    assert!(done);
    assert_eq!(out, "after\n");
}

#[test]
fn set_defines_a_function_used_later() {
    let (done, out) = run_program(
        "(set (name f) (params a) (body (add (a) 1))) (println (f 5))",
    );
    assert!(done);
    assert_eq!(out, "6\n");
}

#[test]
fn set_redefinition_resolves_to_latest() {
    let (done, out) = run_program(
        "(set (name f) (params a) (body (add (a) 1))) (println (f 5)) \
         (set (name f) (params a) (body (add (a) 2))) (println (f 5))",
    );
    assert!(done);
    assert_eq!(out, "6\n7\n");
}

#[test]
fn set_with_two_params_substitutes_positionally() {
    let (done, out) = run_program(
        "(set (name g) (params a b) (body (sub (a) (b)))) (println (g 10 4))",
    );
    assert!(done);
    assert_eq!(out, "6\n");
}

#[test]
fn set_without_params_binds_a_value() {
    let (done, out) = run_program(
        "(set (name y) (params) (body 5)) (println (y))",
    );
    assert!(done);
    assert_eq!(out, "5\n");
}

#[test]
fn let_binds_within_the_same_nesting() {
    let (done, out) = run_program(
        "(println (let (name y) (body 5)) (add (y) 1))",
    );
    assert!(done);
    assert_eq!(out, "6\n");
}

#[test]
fn let_binding_ends_at_the_closing_bracket() {
    // The binding of q lives only inside the first form's nesting; the
    // later probe must not resolve it, so no 7 is ever printed.
    let (done, out) = run_program(
        "(println (let (name q) (body 7)) \"in\") (println (add (q) 0))",
    );
    assert!(done);
    assert!(!out.contains('7'), "q leaked out of its nesting: {out}");
}

#[test]
fn division_by_zero_halts_with_no_later_output() {
    let (done, out) = run_program("(println (div 1 0)) (println \"unreachable\")");
    assert!(done);
    assert_eq!(out, "");
}

#[test]
fn output_before_an_error_is_kept() {
    let (done, out) = run_program("(println \"first\") (println (div 1 0))");
    assert!(done);
    assert_eq!(out, "first\n");
}

#[test]
fn arguments_evaluate_left_to_right() {
    let (done, out) = run_program("(print (add 1 1) (add 2 2) (add 3 3))");
    assert!(done);
    assert_eq!(out, "246");
}

#[test]
fn too_few_arguments_abort_the_run() {
    // The call hands one actual to two formals: the expansion is
    // rejected and evaluation aborts with no output from the call.
    let (done, out) = run_program(
        "(println \"before\") (set (name g) (params a b) (body (add (a) (b)))) (println (g 1))",
    );
    assert!(done);
    assert_eq!(out, "before\n");
}

#[test]
fn extra_arguments_are_dropped() {
    let (done, out) = run_program(
        "(set (name h) (params a) (body (add (a) 1))) (println (h 5 9 9))",
    );
    assert!(done);
    assert_eq!(out, "6\n");
}

#[test]
fn a_group_collapses_to_its_single_literal() {
    let (done, out) = run_program("(println ((add 1 2)))");
    assert!(done);
    assert_eq!(out, "3\n");
}

#[test]
fn strings_print_with_escapes_decoded() {
    let (done, out) = run_program("(print \"a\\nb\")");
    assert!(done);
    assert_eq!(out, "a\nb");
}

fn run_program_status(src: &str) -> (bool, bool, String) {
    let lexer = Lexer::new(src);
    let toks = lexer.lex().expect("program must lex");
    let mut parser = Parser::new();
    for tok in toks {
        assert!(parser.parse_token(tok), "program must parse");
    }
    let tree = parser.get_parsed_tree().expect("one tree");
    let mut ev = Eval::new(tree);
    ev.eval();
    (ev.is_evaluated(), ev.aborted, ev.output)
}

#[test]
fn a_clean_run_is_not_aborted() {
    let (done, aborted, out) = run_program_status("(println (add 1 2))");
    assert!(done);
    assert!(!aborted);
    assert_eq!(out, "3\n");
}

#[test]
fn an_error_sets_the_aborted_flag_and_keeps_output() {
    let (done, aborted, out) = run_program_status("(println \"first\") (println (div 1 0))");
    assert!(done);
    assert!(aborted);
    assert_eq!(out, "first\n");
}

#[test]
fn a_non_numeric_operand_aborts() {
    let (done, aborted, _) = run_program_status("(add pear 1)");
    assert!(done);
    assert!(aborted);
}

#[test]
fn a_malformed_definition_aborts() {
    // The name sub-form is empty: installation cannot read a name.
    let (done, aborted, _) = run_program_status("(set (name) (params) (body 1))");
    assert!(done);
    assert!(aborted);
}

#[test]
fn forms_after_an_operatorless_group_still_run() {
    let (done, aborted, out) = run_program_status("((add 1 2)) (println \"later\")");
    assert!(done);
    assert!(!aborted);
    assert_eq!(out, "later\n");
}

#[test]
fn let_shadows_and_the_outer_binding_returns() {
    // The inner binding of x lives in the inner nesting alone; the outer
    // binding is untouched and resolves again after the bracket closes.
    let (done, aborted, out) = run_program_status(
        "(set (name x) (params) (body 5)) ((let (name x) (body 7)) (println (x))) (println (x))",
    );
    assert!(done);
    assert!(!aborted);
    assert_eq!(out, "7\n5\n");
}

#[test]
fn a_tree_of_bare_literals_runs_clean() {
    let mut root = Ast::new_null();
    root.push_child(Ast::new(Token::new_preset("1".to_string(), Type::Number)));
    root.push_child(Ast::new(Token::new_preset("hi".to_string(), Type::StrType)));
    root.push_child(Ast::new(Token::new_preset("2".to_string(), Type::Number)));
    let mut ev = Eval::new(root);
    ev.eval();
    assert!(ev.is_evaluated());
    assert!(!ev.aborted);
    assert_eq!(ev.output, "");
}
