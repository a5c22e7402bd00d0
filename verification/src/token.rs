//! Tokens and the per-character lexing state machine.
//!
//! A token is built one character at a time: the first character decides the
//! token's kind, and every further character either extends the lexeme,
//! finishes the token, or rejects the input.

use vstd::prelude::*;

use crate::strutil::push_char;

verus! {

/// The semantic kind of a token.
#[derive(Copy, Clone, PartialEq, Eq, Structural, Debug)]
pub enum Type {
    Oparen,
    Cparen,
    Func,
    OpenList,
    CloseList,
    Number,
    StrType,
    Space,
    Empty,
    Error,
}

impl Type {
    /// True when `matching` is the closing bracket kind required by `self`.
    pub fn is_matching_close(&self, matching: Type) -> (r: bool)
        ensures
            r == ((*self is Oparen && matching is Cparen) || (*self is OpenList
                && matching is CloseList)),
    {
        match *self {
            Type::Oparen => matches!(matching, Type::Cparen),
            Type::OpenList => matches!(matching, Type::CloseList),
            _ => false,
        }
    }
}

/// What a single character did to the token being lexed.
#[derive(Copy, Clone, PartialEq, Eq, Structural, Debug)]
pub enum LexResult {
    /// The character extended the current lexeme.
    Pass,
    /// The character completed the token and belongs to it.
    Finish,
    /// The character completed the token and must start a new one.
    FinishNew,
    /// The character completed the token and is discarded.
    FinishDelete,
    /// The character starts an escape: the next character is appended raw.
    Continue,
    /// The character is illegal here.
    Fail,
}

/// One token under construction or finished: a lexeme, its kind, and the
/// lexing-state flags.
#[derive(Debug)]
pub struct Token {
    pub lexed: String,
    pub tok_type: Type,
    pub is_lexed: bool,
    pub must_append: bool,
}

impl Clone for Token {
    /// The copy has the same image as the source token.
    fn clone(&self) -> (r: Self)
        ensures
            r@ == self@,
    {
        Token {
            lexed: self.lexed.clone(),
            tok_type: self.tok_type,
            is_lexed: self.is_lexed,
            must_append: self.must_append,
        }
    }
}

/// The mathematical image of a [`Token`].
pub struct TokenV {
    pub lexed: Seq<char>,
    pub tok_type: Type,
    pub is_lexed: bool,
    pub must_append: bool,
}

impl View for Token {
    type V = TokenV;

    open spec fn view(&self) -> TokenV {
        TokenV {
            lexed: self.lexed@,
            tok_type: self.tok_type,
            is_lexed: self.is_lexed,
            must_append: self.must_append,
        }
    }
}

impl DeepView for Token {
    type V = TokenV;

    open spec fn deep_view(&self) -> TokenV {
        self.view()
    }
}

/// True when `s` holds the character `c` somewhere.
pub open spec fn seq_has_char(s: Seq<char>, c: char) -> bool {
    exists|i: int| 0 <= i < s.len() && s[i] == c
}

/// The kind and outcome assigned to the first character of a new token.
pub open spec fn spec_first_transition(c: char) -> (LexResult, Type) {
    if c == '"' {
        (LexResult::Continue, Type::StrType)
    } else if c == '(' {
        (LexResult::Finish, Type::Oparen)
    } else if c == ')' {
        (LexResult::Finish, Type::Cparen)
    } else if c == ' ' || c == '\n' || c == '\t' || c == '\r' {
        (LexResult::Finish, Type::Space)
    } else if ('0' <= c && c <= '9') || c == '.' || c == '-' {
        (LexResult::Pass, Type::Number)
    } else if c == '<' {
        (LexResult::Finish, Type::OpenList)
    } else if c == '>' {
        (LexResult::Finish, Type::CloseList)
    } else if c == '\0' {
        (LexResult::Fail, Type::Error)
    } else {
        (LexResult::Pass, Type::Func)
    }
}

/// True for the characters that end a symbol or number token.
pub open spec fn spec_is_delimiter(c: char) -> bool {
    c == ' ' || c == ')' || c == '>' || c == '|'
}

/// The outcome of feeding `c` to a symbol token: a delimiter ends the
/// symbol; a bare newline (or tab, carriage return, the null character)
/// inside an unterminated symbol is illegal.
pub open spec fn spec_func_transition(c: char) -> LexResult {
    if spec_is_delimiter(c) {
        LexResult::FinishNew
    } else if c == '\n' || c == '\r' || c == '\t' || c == '\0' {
        LexResult::Fail
    } else {
        LexResult::Pass
    }
}

/// The outcome of feeding `c` to a number token whose lexeme so far is `cur`.
pub open spec fn spec_number_transition(cur: Seq<char>, c: char) -> LexResult {
    if c == '-' {
        LexResult::Fail
    } else if c == '.' {
        if seq_has_char(cur, '.') {
            LexResult::Fail
        } else {
            LexResult::Pass
        }
    } else if '0' <= c && c <= '9' {
        LexResult::Pass
    } else if spec_is_delimiter(c) {
        LexResult::FinishNew
    } else {
        LexResult::Fail
    }
}

/// The outcome of feeding `c` to a string token.
pub open spec fn spec_str_transition(c: char) -> LexResult {
    if c == '\\' {
        LexResult::Continue
    } else if c == '"' {
        LexResult::FinishDelete
    } else {
        LexResult::Pass
    }
}

/// The outcome of feeding `c` to an unfinished token `t` that is not in
/// escape mode.
pub open spec fn spec_apply_transition(t: TokenV, c: char) -> LexResult {
    match t.tok_type {
        Type::Func => spec_func_transition(c),
        Type::Number => spec_number_transition(t.lexed, c),
        Type::StrType => spec_str_transition(c),
        _ => LexResult::Fail,
    }
}

/// The character that a backslash escape produces.
pub open spec fn spec_escape_char(c: char) -> char {
    if c == 'n' {
        '\n'
    } else if c == 't' {
        '\t'
    } else if c == 'r' {
        '\r'
    } else {
        c
    }
}

/// How a token changes when a transition outcome is applied with character
/// `c`.
pub open spec fn spec_parse_lexresult(t: TokenV, result: LexResult, c: char) -> TokenV {
    match result {
        LexResult::Pass => TokenV { lexed: t.lexed.push(c), ..t },
        LexResult::Fail => TokenV { tok_type: Type::Error, is_lexed: true, ..t },
        LexResult::Finish => TokenV { lexed: t.lexed.push(c), is_lexed: true, ..t },
        LexResult::FinishNew => TokenV { is_lexed: true, ..t },
        LexResult::FinishDelete => TokenV { is_lexed: true, ..t },
        LexResult::Continue => TokenV { must_append: true, ..t },
    }
}

/// The token made from a first character `c`.  An opening quote is
/// consumed outright: the string token starts empty, with no escape
/// pending, so only a backslash inside the string arms the escape map.
pub open spec fn spec_token_new(c: char) -> TokenV {
    let (result, kind) = spec_first_transition(c);
    let fresh = TokenV { lexed: Seq::empty(), tok_type: kind, is_lexed: false, must_append: false };
    if result is Continue {
        fresh
    } else {
        spec_parse_lexresult(fresh, result, c)
    }
}

/// The token and outcome after feeding `c` to token `t`.
pub open spec fn spec_lex_char(t: TokenV, c: char) -> (TokenV, LexResult) {
    if t.is_lexed {
        (t, LexResult::Finish)
    } else if t.must_append {
        (
            TokenV { lexed: t.lexed.push(spec_escape_char(c)), must_append: false, ..t },
            LexResult::Pass,
        )
    } else {
        let result = spec_apply_transition(t, c);
        (spec_parse_lexresult(t, result, c), result)
    }
}

/// How a token consumes characters.
pub trait TokenTrait: View<V = TokenV> {
    /// A copy of the lexeme gathered so far.
    fn get_lexed(&self) -> (r: String)
        ensures
            r@ == self@.lexed,
    ;

    /// Whether the token is finished.
    fn get_status(&self) -> (r: bool)
        ensures
            r == self@.is_lexed,
    ;

    /// Feed one character to the token.
    fn lex_char(&mut self, new_char: char) -> (r: LexResult)
        ensures
            final(self)@ == spec_lex_char(old(self)@, new_char).0,
            r == spec_lex_char(old(self)@, new_char).1,
    ;
}

impl TokenTrait for Token {
    fn get_lexed(&self) -> (r: String) {
        self.lexed.clone()
    }

    fn get_status(&self) -> (r: bool) {
        self.is_lexed
    }

    fn lex_char(&mut self, new_char: char) -> (r: LexResult) {
        if self.is_lexed {
            LexResult::Finish
        } else if self.must_append {
            self.push_escape(new_char)
        } else {
            let res = apply_transition(self, new_char);
            self.parse_lexresult(res, new_char);
            res
        }
    }
}

impl Token {
    /// A new token started by its first character.
    pub fn new(lexed: char) -> (r: Self)
        ensures
            r@ == spec_token_new(lexed),
    {
        let mut tok = Token {
            lexed: String::new(),
            tok_type: Type::Empty,
            is_lexed: false,
            must_append: false,
        };
        let first = first_transition(lexed);
        tok.tok_type = first.1;
        if !matches!(first.0, LexResult::Continue) {
            tok.parse_lexresult(first.0, lexed);
        }
        tok
    }

    /// A finished token with the given lexeme and kind.
    pub fn new_preset(lexed: String, tok_type: Type) -> (r: Self)
        ensures
            r@.lexed == lexed@,
            r@.tok_type == tok_type,
            r@.is_lexed,
            !r@.must_append,
    {
        Token { lexed, tok_type, is_lexed: true, must_append: false }
    }

    /// Replace the lexeme.
    pub fn set_lexed(&mut self, string: String)
        ensures
            final(self)@ == (TokenV { lexed: string@, ..old(self)@ }),
    {
        self.lexed = string;
    }

    fn make_error(&mut self)
        ensures
            final(self)@ == (TokenV { tok_type: Type::Error, is_lexed: true, ..old(self)@ }),
    {
        self.tok_type = Type::Error;
        self.status_true();
    }

    fn make_finish(&mut self, new_char: char)
        ensures
            final(self)@ == (TokenV {
                lexed: old(self)@.lexed.push(new_char),
                is_lexed: true,
                ..old(self)@
            }),
    {
        push_char(&mut self.lexed, new_char);
        self.status_true();
    }

    fn status_true(&mut self)
        ensures
            final(self)@ == (TokenV { is_lexed: true, ..old(self)@ }),
    {
        self.is_lexed = true;
    }

    fn append_true(&mut self)
        ensures
            final(self)@ == (TokenV { must_append: true, ..old(self)@ }),
    {
        self.must_append = true;
    }

    fn append_false(&mut self)
        ensures
            final(self)@ == (TokenV { must_append: false, ..old(self)@ }),
    {
        self.must_append = false;
    }

    fn parse_lexresult(&mut self, result: LexResult, lexed: char)
        ensures
            final(self)@ == spec_parse_lexresult(old(self)@, result, lexed),
    {
        match result {
            LexResult::Pass => push_char(&mut self.lexed, lexed),
            LexResult::Fail => self.make_error(),
            LexResult::Finish => self.make_finish(lexed),
            LexResult::FinishNew => self.status_true(),
            LexResult::FinishDelete => self.status_true(),
            LexResult::Continue => self.append_true(),
        }
    }

    fn push_escape(&mut self, escape: char) -> (r: LexResult)
        ensures
            final(self)@ == (TokenV {
                lexed: old(self)@.lexed.push(spec_escape_char(escape)),
                must_append: false,
                ..old(self)@
            }),
            r == LexResult::Pass,
    {
        let c = match escape {
            'n' => '\n',
            't' => '\t',
            'r' => '\r',
            _ => escape,
        };
        push_char(&mut self.lexed, c);
        self.append_false();
        LexResult::Pass
    }
}

/// The transition for one more character of an unfinished token.
pub fn apply_transition(tok: &Token, to_lex: char) -> (r: LexResult)
    ensures
        r == spec_apply_transition(tok@, to_lex),
{
    match tok.tok_type {
        Type::Func => func(to_lex),
        Type::Number => {
            let cur = tok.get_lexed();
            number(cur, to_lex)
        },
        Type::StrType => str_type(to_lex),
        _ => LexResult::Fail,
    }
}

/// The transition for the first character of a new token.
pub fn first_transition(to_lex: char) -> (r: (LexResult, Type))
    ensures
        r == spec_first_transition(to_lex),
{
    match to_lex {
        '"' => (LexResult::Continue, Type::StrType),
        '(' => (LexResult::Finish, Type::Oparen),
        ')' => (LexResult::Finish, Type::Cparen),
        ' ' | '\n' | '\t' | '\r' => (LexResult::Finish, Type::Space),
        '0'..='9' | '.' | '-' => (LexResult::Pass, Type::Number),
        '<' => (LexResult::Finish, Type::OpenList),
        '>' => (LexResult::Finish, Type::CloseList),
        '\0' => (LexResult::Fail, Type::Error),
        _ => (LexResult::Pass, Type::Func),
    }
}

fn func(to_lex: char) -> (r: LexResult)
    ensures
        r == spec_func_transition(to_lex),
{
    if is_delimiter(to_lex) {
        LexResult::FinishNew
    } else if to_lex == '\n' || to_lex == '\r' || to_lex == '\t' || to_lex == '\0' {
        LexResult::Fail
    } else {
        LexResult::Pass
    }
}

fn number(cur_lexed: String, to_lex: char) -> (r: LexResult)
    ensures
        r == spec_number_transition(cur_lexed@, to_lex),
{
    if to_lex == '-' {
        LexResult::Fail
    } else if to_lex == '.' {
        if check_decimal(cur_lexed) {
            LexResult::Fail
        } else {
            LexResult::Pass
        }
    } else if '0' <= to_lex && to_lex <= '9' {
        LexResult::Pass
    } else if is_delimiter(to_lex) {
        LexResult::FinishNew
    } else {
        LexResult::Fail
    }
}

fn str_type(to_lex: char) -> (r: LexResult)
    ensures
        r == spec_str_transition(to_lex),
{
    if '\\' == to_lex {
        LexResult::Continue
    } else if '"' == to_lex {
        LexResult::FinishDelete
    } else {
        LexResult::Pass
    }
}

fn check_decimal(num_str: String) -> (r: bool)
    ensures
        r == seq_has_char(num_str@, '.'),
{
    let s = num_str.as_str();
    let len = s.unicode_len();
    let mut has_decimal = false;
    let mut i: usize = 0;
    while i < len
        invariant
            0 <= i <= len,
            len == s@.len(),
            has_decimal == exists|j: int| 0 <= j < i && s@[j] == '.',
        decreases len - i,
    {
        if s.get_char(i) == '.' {
            has_decimal = true;
        }
        i = i + 1;
    }
    has_decimal
}

fn is_delimiter(delim: char) -> (r: bool)
    ensures
        r == spec_is_delimiter(delim),
{
    match delim {
        ' ' | ')' | '>' | '|' => true,
        _ => false,
    }
}

} // verus!
