//! The character-level lexer: feeds the input text one character at a time
//! into the token state machine, growing a token list, and fails on the
//! first illegal character.

use vstd::prelude::*;

use crate::token::{
    spec_lex_char, spec_token_new, LexResult, Token, TokenTrait, TokenV,
};

verus! {

/// One step of lexing: the token list so far takes one more character.
pub open spec fn spec_lex_step(toks: Seq<TokenV>, c: char) -> Option<Seq<TokenV>> {
    if toks.len() == 0 {
        Some(toks.push(spec_token_new(c)))
    } else {
        let last = toks.last();
        if last.is_lexed {
            Some(toks.push(spec_token_new(c)))
        } else {
            let stepped = spec_lex_char(last, c);
            match stepped.1 {
                LexResult::Fail => None,
                LexResult::FinishNew => Some(
                    toks.update(toks.len() - 1, stepped.0).push(spec_token_new(c)),
                ),
                _ => Some(toks.update(toks.len() - 1, stepped.0)),
            }
        }
    }
}

/// The token list that a whole text lexes to, or `None` on the first
/// illegal character.
pub open spec fn spec_lex(s: Seq<char>) -> Option<Seq<TokenV>>
    decreases s.len(),
{
    if s.len() == 0 {
        Some(Seq::empty())
    } else {
        match spec_lex(s.drop_last()) {
            Some(toks) => spec_lex_step(toks, s.last()),
            None => None,
        }
    }
}

/// Once a prefix fails to lex, every longer prefix fails too.
pub proof fn lemma_lex_none_extends(s: Seq<char>, i: int)
    requires
        0 <= i <= s.len(),
        spec_lex(s.take(i)) is None,
    ensures
        spec_lex(s) is None,
    decreases s.len() - i,
{
    if i < s.len() {
        assert(s.take(i + 1).drop_last() =~= s.take(i));
        lemma_lex_none_extends(s, i + 1);
    } else {
        assert(s.take(i) =~= s);
    }
}

/// The lexer: borrows the text to be lexed.
pub struct Lexer<'a> {
    pub unlexed: &'a str,
}

impl<'a> View for Lexer<'a> {
    type V = Seq<char>;

    open spec fn view(&self) -> Seq<char> {
        self.unlexed@
    }
}

/// How a lexer is read and run.
pub trait LexerTrait<'a>: View<V = Seq<char>> {
    /// The text this lexer was built over.
    fn get_unlexed(&self) -> (r: &'a str)
        ensures
            r@ == self@,
    ;

    /// Run the machine over the whole text: the finished token list, or
    /// `None` on the first illegal character.
    fn lex(&self) -> (r: Option<Vec<Token>>)
        ensures
            match r {
                Some(toks) => Some(toks.deep_view()) == spec_lex(self@),
                None => spec_lex(self@) is None,
            },
    ;
}

impl<'a> LexerTrait<'a> for Lexer<'a> {
    fn get_unlexed(&self) -> (r: &'a str) {
        self.unlexed
    }

    fn lex(&self) -> (r: Option<Vec<Token>>) {
        let mut toks: Vec<Token> = Vec::new();
        let s = self.unlexed;
        let len = s.unicode_len();
        let mut i: usize = 0;
        while i < len
            invariant
                0 <= i <= len,
                len == s@.len(),
                s@ == self@,
                Some(toks.deep_view()) == spec_lex(s@.take(i as int)),
            decreases len - i,
        {
            let unlexed_char = s.get_char(i);
            let ghost pre = toks.deep_view();
            proof {
                assert(s@.take(i + 1).drop_last() =~= s@.take(i as int));
                assert(s@.take(i + 1).last() == s@[i as int]);
            }
            match toks.pop() {
                None => {
                    toks.push(Token::new(unlexed_char));
                    proof {
                        assert(toks.deep_view() =~= spec_lex_step_ok(pre, unlexed_char));
                    }
                },
                Some(mut tok) => {
                    proof {
                        assert(toks.deep_view().push(tok@) =~= pre);
                        assert(tok@ == pre.last());
                    }
                    if tok.get_status() {
                        toks.push(tok);
                        toks.push(Token::new(unlexed_char));
                        proof {
                            assert(toks.deep_view() =~= spec_lex_step_ok(pre, unlexed_char));
                        }
                    } else {
                        match tok.lex_char(unlexed_char) {
                            LexResult::Pass => {
                                toks.push(tok);
                                proof {
                                    assert(toks.deep_view() =~= spec_lex_step_ok(pre, unlexed_char));
                                }
                            },
                            LexResult::Finish => {
                                toks.push(tok);
                                proof {
                                    assert(toks.deep_view() =~= spec_lex_step_ok(pre, unlexed_char));
                                }
                            },
                            LexResult::FinishNew => {
                                toks.push(tok);
                                toks.push(Token::new(unlexed_char));
                                proof {
                                    assert(toks.deep_view() =~= spec_lex_step_ok(pre, unlexed_char));
                                }
                            },
                            LexResult::FinishDelete => {
                                toks.push(tok);
                                proof {
                                    assert(toks.deep_view() =~= spec_lex_step_ok(pre, unlexed_char));
                                }
                            },
                            LexResult::Continue => {
                                toks.push(tok);
                                proof {
                                    assert(toks.deep_view() =~= spec_lex_step_ok(pre, unlexed_char));
                                }
                            },
                            LexResult::Fail => {
                                proof {
                                    lemma_lex_none_extends(s@, i + 1);
                                }
                                return None;
                            },
                        }
                    }
                },
            }
            i = i + 1;
        }
        proof {
            assert(s@.take(len as int) =~= s@);
        }
        Some(toks)
    }
}

/// The token list after one lex step that is known not to fail.
pub open spec fn spec_lex_step_ok(toks: Seq<TokenV>, c: char) -> Seq<TokenV> {
    spec_lex_step(toks, c)->Some_0
}

impl<'a> Lexer<'a> {
    /// A lexer over the given text.
    pub fn new(newunlexed: &'a str) -> (r: Self)
        ensures
            r@ == newunlexed@,
    {
        Lexer { unlexed: newunlexed }
    }
}

} // verus!
