use minilisp::ast::{Ast, AstTrait};
use minilisp::builtins::{evaluate_set, evaluate_set_funcs, generate_let_ast};
use minilisp::scope::Scope;
use minilisp::token::{Token, TokenTrait, Type};

fn group(children: Vec<Ast>) -> Ast {
    let mut node = Ast::new(Token::new_preset("(".to_string(), Type::Oparen));
    for child in children {
        node.push_child(child);
    }
    node
}

fn sym(text: &str) -> Ast {
    Ast::new(Token::new_preset(text.to_string(), Type::Func))
}

fn num(text: &str) -> Ast {
    Ast::new(Token::new_preset(text.to_string(), Type::Number))
}

fn op_lexeme(node: &mut Ast) -> String {
    let first = node.get_child(0).unwrap();
    first.node_val.unwrap().get_lexed()
}

#[test]
fn set_is_relabelled_and_skipped() {
    let node = group(vec![sym("set"), num("1")]);
    let r = evaluate_set_funcs(node);
    assert!(r.is_skip());
    let mut node = r.unwrap_skip();
    assert_eq!(op_lexeme(&mut node), "seteval");
}

#[test]
fn let_is_relabelled_and_skipped() {
    let node = group(vec![sym("let"), num("1")]);
    let r = evaluate_set_funcs(node);
    assert!(r.is_skip());
    let mut node = r.unwrap_skip();
    assert_eq!(op_lexeme(&mut node), "leteval");
}

#[test]
fn name_and_params_markers_are_consumed() {
    let r = evaluate_set_funcs(group(vec![sym("name"), sym("x")]));
    assert!(r.is_remove());
    let mut rest = r.unwrap_remove();
    assert_eq!(rest.child_count(), 1);
    assert_eq!(op_lexeme(&mut rest), "x");

    let r = evaluate_set_funcs(group(vec![sym("params"), sym("a"), sym("b")]));
    assert!(r.is_remove());
    assert_eq!(r.unwrap_remove().child_count(), 2);
}

#[test]
fn body_marker_yields_the_bare_body() {
    let r = evaluate_set_funcs(group(vec![sym("body"), num("5")]));
    assert!(r.is_remove());
    let body = r.unwrap_remove();
    assert_eq!(body.node_val.unwrap().get_lexed(), "5");
}

#[test]
fn body_marker_without_a_body_is_an_error() {
    assert!(evaluate_set_funcs(group(vec![sym("body")])).is_error());
}

#[test]
fn other_operators_pass_through_unchanged() {
    let r = evaluate_set_funcs(group(vec![sym("add"), num("1"), num("2")]));
    assert!(r.is_other());
    let mut node = r.unwrap_other();
    assert_eq!(node.child_count(), 3);
    assert_eq!(op_lexeme(&mut node), "add");
}

#[test]
fn an_empty_node_is_a_dispatch_error() {
    assert!(evaluate_set_funcs(Ast::new_null()).is_error());
}

#[test]
fn seteval_installs_into_the_scope() {
    // The operator child was consumed by recognition before installation.
    let node = group(vec![
        sym("seteval"),
        group(vec![sym("f")]),
        group(vec![sym("a")]),
        num("5"),
    ]);
    let mut scope = Scope::new_root();
    let r = evaluate_set(node, &mut scope);
    assert!(r.is_ignore());
    assert!(scope.find_func(&"f".to_string()).is_some());
}

#[test]
fn leteval_installs_with_empty_params() {
    let node = group(vec![sym("leteval"), group(vec![sym("y")]), num("5")]);
    let mut scope = Scope::new_root();
    let r = evaluate_set(node, &mut scope);
    assert!(r.is_ignore());
    let found = scope.find_func(&"y".to_string()).expect("y installed");
    assert!(found.params.node_val.is_none());
}

#[test]
fn a_plain_call_is_handed_back_for_insertion() {
    let node = group(vec![sym("add"), num("1")]);
    let mut scope = Scope::new_root();
    let r = evaluate_set(node, &mut scope);
    assert!(r.is_insert());
    let mut node = r.unwrap_insert();
    assert_eq!(op_lexeme(&mut node), "add");
}

#[test]
fn generate_let_ast_builds_the_binding_form() {
    let tok = Token::new_preset("x".to_string(), Type::Func);
    let mut form = generate_let_ast(tok, num("9"));
    assert_eq!(form.child_count(), 3);
    assert_eq!(op_lexeme(&mut form), "let");
    let mut name_form = form.get_child(0).unwrap();
    assert_eq!(op_lexeme(&mut name_form), "name");
    assert_eq!(
        name_form.get_child(0).unwrap().node_val.unwrap().get_lexed(),
        "x"
    );
    let mut body_form = form.get_child(0).unwrap();
    assert_eq!(op_lexeme(&mut body_form), "body");
    assert_eq!(
        body_form.get_child(0).unwrap().node_val.unwrap().get_lexed(),
        "9"
    );
}
