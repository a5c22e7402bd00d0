use minilisp::ast::{Ast, AstTrait};
use minilisp::lex::{Lexer, LexerTrait};
use minilisp::parse::{Parser, ParserTrait};
use minilisp::token::{Token, Type};

fn parse_text(src: &str) -> Option<Ast> {
    let lexer = Lexer::new(src);
    let toks = lexer.lex()?;
    let mut parser = Parser::new();
    for tok in toks {
        if !parser.parse_token(tok) {
            return None;
        }
    }
    parser.get_parsed_tree()
}

#[test]
fn balanced_form_parses_to_one_root_child() {
    let tree = parse_text("(add 1 2)").expect("must parse");
    let mut tree = tree;
    assert_eq!(tree.child_count(), 1);
    let form = tree.get_child(0).unwrap();
    let mut form = form;
    assert_eq!(form.child_count(), 3);
    let op = form.get_child(0).unwrap();
    assert_eq!(op.node_val.unwrap().tok_type, Type::Func);
}

#[test]
fn nested_forms_parse() {
    let mut tree = parse_text("(add (mult 2 3) <4 5>)").expect("must parse");
    assert_eq!(tree.child_count(), 1);
    let mut form = tree.get_child(0).unwrap();
    assert_eq!(form.child_count(), 3);
    let inner = form.get_child(1).unwrap();
    assert_eq!(inner.node_val.as_ref().unwrap().tok_type, Type::Oparen);
    let list = form.get_child(1).unwrap();
    assert_eq!(list.node_val.as_ref().unwrap().tok_type, Type::OpenList);
}

#[test]
fn missing_close_produces_no_tree() {
    let lexer = Lexer::new("(add 1");
    let toks = lexer.lex().expect("must lex");
    let mut parser = Parser::new();
    for tok in toks {
        assert!(parser.parse_token(tok));
    }
    assert!(!parser.is_done());
    assert!(parser.get_parsed_tree().is_none());
}

#[test]
fn stray_close_is_rejected_outright() {
    // With only the synthetic root open, a closing bracket is surplus:
    // the token is rejected, the stack is cleared, and nothing that
    // follows can produce a tree.
    let mut parser = Parser::new();
    assert!(!parser.parse_token(Token::new_preset(")".to_string(), Type::Cparen)));
    assert!(!parser.is_done());
    assert!(parser.get_parsed_tree().is_none());
}

#[test]
fn imbalanced_sequence_never_yields_a_tree() {
    let lexer = Lexer::new(") (a 1)");
    let toks = lexer.lex().expect("must lex");
    let mut parser = Parser::new();
    let mut all_ok = true;
    for tok in toks {
        if !parser.parse_token(tok) {
            all_ok = false;
        }
    }
    assert!(!all_ok);
    assert!(parser.get_parsed_tree().is_none());
}

#[test]
fn mismatched_brackets_fail() {
    assert!(parse_text("(add 1 2>").is_none());
    assert!(parse_text("<1 2)").is_none());
}

#[test]
fn literal_outside_call_context_fails() {
    assert!(parse_text("42").is_none());
}

#[test]
fn is_matching_close_pairs_brackets() {
    assert!(Type::Oparen.is_matching_close(Type::Cparen));
    assert!(Type::OpenList.is_matching_close(Type::CloseList));
    assert!(!Type::Oparen.is_matching_close(Type::CloseList));
    assert!(!Type::OpenList.is_matching_close(Type::Cparen));
    assert!(!Type::Number.is_matching_close(Type::Cparen));
}

#[test]
fn parser_feeds_presets() {
    let mut parser = Parser::new();
    assert!(parser.parse_token(Token::new_preset("(".to_string(), Type::Oparen)));
    assert!(parser.parse_token(Token::new_preset("add".to_string(), Type::Func)));
    assert!(parser.parse_token(Token::new_preset("1".to_string(), Type::Number)));
    assert!(parser.parse_token(Token::new_preset(")".to_string(), Type::Cparen)));
    assert!(parser.is_done());
    assert!(parser.get_parsed_tree().is_some());
}

#[test]
fn error_token_clears_the_parse() {
    let mut parser = Parser::new();
    assert!(parser.parse_token(Token::new_preset("(".to_string(), Type::Oparen)));
    assert!(!parser.parse_token(Token::new_preset("".to_string(), Type::Error)));
    assert!(parser.get_parsed_tree().is_none());
}
