use minilisp::ast::Ast;
use minilisp::scope::{Func, Scope};
use minilisp::token::{Token, TokenTrait, Type};

fn leaf(text: &str) -> Ast {
    Ast::new(Token::new_preset(text.to_string(), Type::Number))
}

fn entry(name: &str, body: &str) -> Func {
    Func::new(name.to_string(), Ast::new_null(), leaf(body))
}

fn body_text(f: &Func) -> String {
    f.body.node_val.as_ref().unwrap().get_lexed()
}

#[test]
fn insert_then_find() {
    let mut scope = Scope::new_root();
    scope.insert_func(entry("f", "1"));
    let found = scope.find_func(&"f".to_string()).expect("f must resolve");
    assert_eq!(found.get_name(), "f");
    assert_eq!(body_text(found), "1");
    assert!(scope.find_func(&"g".to_string()).is_none());
}

#[test]
fn table_stays_sorted_by_name() {
    let mut scope = Scope::new_root();
    scope.insert_func_no_search(entry("mango", "1"));
    scope.insert_func_no_search(entry("apple", "2"));
    scope.insert_func_no_search(entry("kiwi", "3"));
    let names: Vec<String> = scope.funcs.iter().map(|f| f.get_name().clone()).collect();
    assert_eq!(
        names,
        vec!["apple".to_string(), "kiwi".to_string(), "mango".to_string()]
    );
}

#[test]
fn insert_func_skips_a_visible_name() {
    let mut scope = Scope::new_root();
    scope.insert_func(entry("f", "1"));
    scope.insert_func(entry("f", "2"));
    assert_eq!(scope.funcs.len(), 1);
    let found = scope.find_func(&"f".to_string()).unwrap();
    assert_eq!(body_text(found), "1");
}

#[test]
fn lookup_prefers_the_innermost_frame() {
    let mut outer = Scope::new_root();
    outer.insert_func(entry("f", "outer"));
    let mut inner = Scope::new(outer);
    inner.insert_func_no_search(entry("f", "inner"));
    let found = inner.find_func(&"f".to_string()).unwrap();
    assert_eq!(body_text(found), "inner");
}

#[test]
fn lookup_walks_to_the_parent() {
    let mut outer = Scope::new_root();
    outer.insert_func(entry("g", "5"));
    let inner = Scope::new(outer);
    let found = inner.find_func(&"g".to_string()).unwrap();
    assert_eq!(body_text(found), "5");
}

#[test]
fn reset_keeps_the_table_size_and_rebinds() {
    let mut scope = Scope::new_root();
    scope.insert_func(entry("a", "1"));
    scope.insert_func(entry("b", "2"));
    scope.insert_func(entry("c", "3"));
    let before = scope.funcs.len();
    let changed = scope.reset_func(&"b".to_string(), Ast::new_null(), leaf("9"));
    assert!(changed);
    assert_eq!(scope.funcs.len(), before);
    let found = scope.find_func(&"b".to_string()).unwrap();
    assert_eq!(body_text(found), "9");
}

#[test]
fn reset_of_an_unknown_name_changes_nothing() {
    let mut scope = Scope::new_root();
    scope.insert_func(entry("a", "1"));
    let changed = scope.reset_func(&"zz".to_string(), Ast::new_null(), leaf("9"));
    assert!(!changed);
    assert_eq!(scope.funcs.len(), 1);
}

#[test]
fn func_reset_replaces_trees_and_keeps_the_name() {
    let mut f = entry("f", "1");
    f.reset(Ast::new_null(), leaf("42"));
    assert_eq!(f.get_name(), "f");
    assert_eq!(body_text(&f), "42");
}

#[test]
fn install_outer_rebinds_only_its_own_frame() {
    let mut root = Scope::new_root();
    root.insert_func(entry("x", "5"));
    let outer = Scope::new(root);
    let mut inner = Scope::new(outer);
    // Installed from the innermost frame, the binding lands in the frame
    // enclosing it, leaving the root entry as it was.
    inner.install_func_outer(entry("x", "7"));
    let seen = inner.find_func(&"x".to_string()).expect("x resolves");
    assert_eq!(body_text(seen), "7");
    let root_entry = match inner.parent.as_ref().unwrap().parent.as_ref() {
        Some(root) => root.find_func(&"x".to_string()).expect("root keeps x"),
        None => unreachable!(),
    };
    assert_eq!(body_text(root_entry), "5");
}
