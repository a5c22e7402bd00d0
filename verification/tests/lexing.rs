use minilisp::lex::{Lexer, LexerTrait};
use minilisp::token::{apply_transition, first_transition, LexResult, Token, TokenTrait, Type};

fn lex_all(src: &str) -> Option<Vec<Token>> {
    let lexer = Lexer::new(src);
    lexer.lex()
}

fn kinds(toks: &[Token]) -> Vec<Type> {
    toks.iter().map(|t| t.tok_type).collect()
}

#[test]
fn lexes_simple_call() {
    let toks = lex_all("(add 1 2)").expect("must lex");
    let ks = kinds(&toks);
    assert_eq!(
        ks,
        vec![
            Type::Oparen,
            Type::Func,
            Type::Space,
            Type::Number,
            Type::Space,
            Type::Number,
            Type::Cparen,
        ]
    );
    assert_eq!(toks[1].get_lexed(), "add");
    assert_eq!(toks[3].get_lexed(), "1");
    assert_eq!(toks[5].get_lexed(), "2");
}

#[test]
fn lexes_angle_list() {
    let toks = lex_all("<1 2>").expect("must lex");
    let ks = kinds(&toks);
    assert_eq!(
        ks,
        vec![Type::OpenList, Type::Number, Type::Space, Type::Number, Type::CloseList]
    );
}

#[test]
fn lexes_decimal_number() {
    let toks = lex_all("1.5 ").expect("must lex");
    assert_eq!(toks[0].tok_type, Type::Number);
    assert_eq!(toks[0].get_lexed(), "1.5");
}

#[test]
fn rejects_two_decimal_points() {
    assert!(lex_all("1.2.3").is_none());
}

#[test]
fn rejects_sign_inside_number() {
    assert!(lex_all("1-2").is_none());
}

#[test]
fn rejects_nul_character() {
    assert!(lex_all("a\0b").is_none());
}

#[test]
fn string_escapes_become_characters() {
    let toks = lex_all("\"a\\nb\\tc\\\\d\" ").expect("must lex");
    assert_eq!(toks[0].tok_type, Type::StrType);
    assert_eq!(toks[0].get_lexed(), "a\nb\tc\\d");
}

#[test]
fn string_keeps_spaces_and_parens() {
    let toks = lex_all("\"( hi )\" ").expect("must lex");
    assert_eq!(toks[0].tok_type, Type::StrType);
    assert_eq!(toks[0].get_lexed(), "( hi )");
}

#[test]
fn space_ends_a_symbol() {
    let toks = lex_all("add mult div").expect("must lex");
    let words: Vec<String> = toks
        .iter()
        .filter(|t| t.tok_type == Type::Func)
        .map(|t| t.get_lexed())
        .collect();
    assert_eq!(words, vec!["add".to_string(), "mult".to_string(), "div".to_string()]);
}

#[test]
fn bare_newline_inside_a_symbol_is_illegal() {
    assert!(lex_all("a\nb").is_none());
    assert!(lex_all("a\tb").is_none());
    assert!(lex_all("1\n2").is_none());
}

#[test]
fn whitespace_between_tokens_is_fine() {
    // A newline or tab may start a token (it lexes as whitespace); only
    // one met inside an unterminated symbol or number is illegal.
    let toks = lex_all("add \n\t mult ").expect("must lex");
    let words: Vec<String> = toks
        .iter()
        .filter(|t| t.tok_type == Type::Func)
        .map(|t| t.get_lexed())
        .collect();
    assert_eq!(words, vec!["add".to_string(), "mult".to_string()]);
}

#[test]
fn negative_number_lexes() {
    let toks = lex_all("-12 ").expect("must lex");
    assert_eq!(toks[0].tok_type, Type::Number);
    assert_eq!(toks[0].get_lexed(), "-12");
}

#[test]
fn token_new_preset_is_finished() {
    let tok = Token::new_preset("abc".to_string(), Type::Func);
    assert!(tok.get_status());
    assert_eq!(tok.get_lexed(), "abc");
}

#[test]
fn lex_char_extends_a_symbol() {
    let mut tok = Token::new('a');
    tok.lex_char('b');
    tok.lex_char('c');
    assert_eq!(tok.get_lexed(), "abc");
    assert!(!tok.get_status());
    tok.lex_char(' ');
    assert!(tok.get_status());
    assert_eq!(tok.get_lexed(), "abc");
}

#[test]
fn first_transition_classifies_characters() {
    assert_eq!(first_transition('(').1, Type::Oparen);
    assert_eq!(first_transition(')').1, Type::Cparen);
    assert_eq!(first_transition('<').1, Type::OpenList);
    assert_eq!(first_transition('>').1, Type::CloseList);
    assert_eq!(first_transition(' ').1, Type::Space);
    assert_eq!(first_transition('\n').1, Type::Space);
    assert_eq!(first_transition('7').1, Type::Number);
    assert_eq!(first_transition('-').1, Type::Number);
    assert_eq!(first_transition('.').1, Type::Number);
    assert_eq!(first_transition('"').1, Type::StrType);
    assert_eq!(first_transition('x').1, Type::Func);
    assert!(matches!(first_transition('\0').0, LexResult::Fail));
}

#[test]
fn apply_transition_follows_the_token_kind() {
    let num = Token::new('1');
    assert!(matches!(apply_transition(&num, '2'), LexResult::Pass));
    assert!(matches!(apply_transition(&num, '.'), LexResult::Pass));
    assert!(matches!(apply_transition(&num, ' '), LexResult::FinishNew));
    assert!(matches!(apply_transition(&num, 'x'), LexResult::Fail));
    let sym = Token::new('a');
    assert!(matches!(apply_transition(&sym, 'b'), LexResult::Pass));
    assert!(matches!(apply_transition(&sym, ')'), LexResult::FinishNew));
    assert!(matches!(apply_transition(&sym, '\n'), LexResult::Fail));
    assert!(matches!(apply_transition(&num, '\n'), LexResult::Fail));
    let s = Token::new('"');
    assert!(matches!(apply_transition(&s, 'h'), LexResult::Pass));
    assert!(matches!(apply_transition(&s, '\\'), LexResult::Continue));
    assert!(matches!(apply_transition(&s, '"'), LexResult::FinishDelete));
}

#[test]
fn string_first_character_is_taken_literally() {
    // The opening quote arms no escape: an n right after it stays an n.
    let toks = lex_all("\"nope\" ").expect("must lex");
    assert_eq!(toks[0].tok_type, Type::StrType);
    assert_eq!(toks[0].get_lexed(), "nope");
    let toks = lex_all("\"tab\" ").expect("must lex");
    assert_eq!(toks[0].get_lexed(), "tab");
}
