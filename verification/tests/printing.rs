use minilisp::ast::Ast;
use minilisp::eval::{Eval, PrettyPrint};
use minilisp::lex::{Lexer, LexerTrait};
use minilisp::parse::{Parser, ParserTrait};

fn parse_text(src: &str) -> Ast {
    let lexer = Lexer::new(src);
    let toks = lexer.lex().expect("must lex");
    let mut parser = Parser::new();
    for tok in toks {
        assert!(parser.parse_token(tok), "must parse");
    }
    parser.get_parsed_tree().expect("one tree")
}

fn pretty(src: &str) -> String {
    let mut ev = Eval::new(parse_text(src));
    ev.pretty_print()
}

#[test]
fn pretty_prints_a_flat_call() {
    assert_eq!(pretty("(add 1 2)"), "(\n\tadd \n\t1 \n\t2 \n)\n");
}

#[test]
fn pretty_indents_nested_forms() {
    assert_eq!(
        pretty("(add 1 (mult 2 3))"),
        "(\n\tadd \n\t1 \n\t(\n\t\tmult \n\t\t2 \n\t\t3 \n\t)\n)\n"
    );
}

#[test]
fn pretty_prints_angle_lists() {
    assert_eq!(pretty("(print <1 2>)"), "(\n\tprint \n\t<\n\t\t1 \n\t\t2 \n\t>\n)\n");
}

#[test]
fn pretty_then_reparse_reconstructs_the_tree() {
    // A multi-level nested example: print it, lex and parse the printed
    // text, and the rebuilt tree prints the same.
    let source = "(add 1 (mult (sub 9 2) 3) <4 (div 8 2)>)";
    let first = pretty(source);
    let second = pretty(&first);
    assert_eq!(first, second);
}

#[test]
fn pretty_consumes_the_tree() {
    let mut ev = Eval::new(parse_text("(add 1 2)"));
    let _ = ev.pretty_print();
    assert_eq!(ev.pretty_print(), "");
}

#[test]
fn push_whitespace_adds_one_tab_per_unit() {
    let ev = Eval::new(Ast::new_null());
    let mut s = String::new();
    ev.push_whitespace(&mut s, 3);
    assert_eq!(s, "\t\t\t");
}
