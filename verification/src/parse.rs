//! The shift-reduce parser: tokens are fed one at a time onto a stack of
//! open nodes; a closing bracket folds the top node into its parent.  The
//! parse is done when the stack has collapsed back to the one synthetic
//! root.

use vstd::prelude::*;

use crate::ast::{ast_leaf, Ast, AstTrait, AstV};
use crate::token::{Token, TokenV, Type};

verus! {

/// One parser step: what feeding token `t` does to the node stack.
/// `None` means the token is rejected and the parse is abandoned.
pub open spec fn spec_parse_token(stack: Seq<AstV>, t: TokenV) -> Option<Seq<AstV>> {
    match t.tok_type {
        Type::Oparen | Type::OpenList => Some(stack.push(ast_leaf(t))),
        Type::Cparen | Type::CloseList => spec_parse_close(stack, t),
        Type::Func | Type::Number | Type::StrType => spec_parse_literal(stack, t),
        Type::Space => Some(stack),
        Type::Empty | Type::Error => None,
    }
}

/// A closing bracket folds the top node into its parent, when the top
/// node's opening bracket matches.  With no open group left — only the
/// synthetic root on the stack — a closing bracket is surplus and the
/// parse is abandoned: an imbalanced sequence never yields a tree.
pub open spec fn spec_parse_close(stack: Seq<AstV>, t: TokenV) -> Option<Seq<AstV>> {
    if stack.len() <= 1 {
        None
    } else {
        let child = stack.last();
        let parent = stack[stack.len() - 2];
        if child.node is Some && ((child.node->Some_0.tok_type is Oparen && t.tok_type is Cparen)
            || (child.node->Some_0.tok_type is OpenList && t.tok_type is CloseList)) {
            Some(
                stack.drop_last().drop_last().push(
                    AstV { children: parent.children.push(child), ..parent },
                ),
            )
        } else {
            None
        }
    }
}

/// A literal becomes one more child of the top node; a literal over the
/// bare root (no payload) is rejected.
pub open spec fn spec_parse_literal(stack: Seq<AstV>, t: TokenV) -> Option<Seq<AstV>> {
    if stack.len() == 0 {
        None
    } else {
        let node = stack.last();
        if node.node is Some {
            Some(
                stack.drop_last().push(
                    AstV { children: node.children.push(ast_leaf(t)), ..node },
                ),
            )
        } else {
            None
        }
    }
}

/// The parser: a stack of nodes still open.
pub struct Parser {
    pub stack: Vec<Ast>,
}

impl View for Parser {
    type V = Seq<AstV>;

    open spec fn view(&self) -> Seq<AstV> {
        self.stack.deep_view()
    }
}

/// How tokens are fed to the parser and the finished tree is taken out.
pub trait ParserTrait: View<V = Seq<AstV>> {
    /// Feed one token.  False means the token was rejected: the parse is
    /// abandoned and the stack cleared.
    fn parse_token(&mut self, token: Token) -> (r: bool)
        ensures
            r == (spec_parse_token(old(self)@, token@) is Some),
            r ==> final(self)@ == spec_parse_token(old(self)@, token@)->Some_0,
            !r ==> final(self)@ == Seq::<AstV>::empty(),
    ;

    /// Whether the stack has collapsed to exactly the root.
    fn is_done(&self) -> (r: bool)
        ensures
            r == (self@.len() == 1),
    ;

    /// Take the finished tree: available exactly when the parse is done.
    fn get_parsed_tree(&mut self) -> (r: Option<Ast>)
        ensures
            old(self)@.len() == 1 ==> r is Some && r->Some_0@ == old(self)@[0] && final(self)@
                == Seq::<AstV>::empty(),
            old(self)@.len() != 1 ==> r is None && final(self)@ == old(self)@,
    ;
}

impl ParserTrait for Parser {
    fn parse_token(&mut self, token: Token) -> (r: bool) {
        let result = match token.tok_type {
            Type::Oparen => self.open(token),
            Type::Cparen => self.close(token),
            Type::Func => self.parse_literal(token),
            Type::OpenList => self.open(token),
            Type::CloseList => self.close(token),
            Type::Number => self.parse_literal(token),
            Type::StrType => self.parse_literal(token),
            Type::Space => true,
            Type::Empty => false,
            Type::Error => false,
        };
        if !result {
            self.stack.clear();
            proof {
                assert(self@ =~= Seq::<AstV>::empty());
            }
        }
        result
    }

    fn is_done(&self) -> (r: bool) {
        self.stack.len() == 1
    }

    fn get_parsed_tree(&mut self) -> (r: Option<Ast>) {
        if self.stack.len() == 1 {
            let r = self.stack.pop();
            proof {
                assert(self@ =~= Seq::<AstV>::empty());
            }
            r
        } else {
            None
        }
    }
}

impl Parser {
    /// A parser holding only the synthetic root.
    pub fn new() -> (r: Self)
        ensures
            r@ =~= seq![AstV { node: None, children: Seq::empty() }],
    {
        let mut stack: Vec<Ast> = Vec::new();
        stack.push(Ast::new_null());
        let r = Parser { stack };
        proof {
            assert(r@ =~= seq![AstV { node: None, children: Seq::<AstV>::empty() }]);
        }
        r
    }

    fn open(&mut self, token: Token) -> (r: bool)
        ensures
            r,
            final(self)@ == old(self)@.push(ast_leaf(token@)),
    {
        self.stack.push(Ast::new(token));
        proof {
            assert(self@ =~= old(self)@.push(ast_leaf(token@)));
        }
        true
    }

    fn close(&mut self, token: Token) -> (r: bool)
        ensures
            r == (spec_parse_close(old(self)@, token@) is Some),
            r ==> final(self)@ == spec_parse_close(old(self)@, token@)->Some_0,
            !r && old(self)@.len() == 0 ==> final(self)@ == old(self)@,
            !r && old(self)@.len() == 1 ==> final(self)@ == old(self)@.drop_last(),
            !r && old(self)@.len() >= 2 ==> final(self)@ == old(self)@.drop_last().drop_last(),
    {
        let ghost pre = self@;
        match self.stack.pop() {
            Some(child) => {
                proof {
                    assert(self@.push(child@) =~= pre);
                }
                match self.stack.pop() {
                    Some(mut parent) => {
                        proof {
                            assert(self@.push(parent@).push(child@) =~= pre);
                        }
                        let should_push = match &child.node_val {
                            Some(tok) => tok.tok_type.is_matching_close(token.tok_type),
                            None => false,
                        };
                        if should_push {
                            parent.push_child(child);
                            self.stack.push(parent);
                            proof {
                                assert(self@ =~= spec_parse_close(pre, token@)->Some_0);
                            }
                        }
                        should_push
                    },
                    None => {
                        proof {
                            assert(self@ =~= pre.drop_last());
                        }
                        false
                    },
                }
            },
            None => false,
        }
    }

    fn parse_literal(&mut self, token: Token) -> (r: bool)
        ensures
            r == (spec_parse_literal(old(self)@, token@) is Some),
            r ==> final(self)@ == spec_parse_literal(old(self)@, token@)->Some_0,
            !r && old(self)@.len() == 0 ==> final(self)@ == old(self)@,
            !r && old(self)@.len() > 0 ==> final(self)@ == old(self)@.drop_last(),
    {
        let ghost pre = self@;
        match self.stack.pop() {
            Some(mut node) => {
                proof {
                    assert(self@.push(node@) =~= pre);
                }
                let should_push = node.node_val.is_some();
                if should_push {
                    node.push_child(Ast::new(token));
                    self.stack.push(node);
                    proof {
                        assert(self@ =~= spec_parse_literal(pre, token@)->Some_0);
                    }
                }
                should_push
            },
            None => false,
        }
    }
}


/// What one whole run of the parser does: the stack after feeding every
/// token in order, or `None` once any token is rejected.
pub open spec fn spec_parse_run(stack: Seq<AstV>, toks: Seq<TokenV>) -> Option<Seq<AstV>>
    decreases toks.len(),
{
    if toks.len() == 0 {
        Some(stack)
    } else {
        match spec_parse_run(stack, toks.drop_last()) {
            Some(st) => spec_parse_token(st, toks.last()),
            None => None,
        }
    }
}

/// Running over a concatenation is running over the parts in order.
pub proof fn lemma_parse_run_cat(stack: Seq<AstV>, a: Seq<TokenV>, b: Seq<TokenV>)
    ensures
        spec_parse_run(stack, a.add(b)) == (match spec_parse_run(stack, a) {
            Some(m) => spec_parse_run(m, b),
            None => None,
        }),
    decreases b.len(),
{
    if b.len() == 0 {
        assert(a.add(b) =~= a);
    } else {
        assert(a.add(b).drop_last() =~= a.add(b.drop_last()));
        assert(a.add(b).last() == b.last());
        lemma_parse_run_cat(stack, a, b.drop_last());
    }
}

/// A tree of the shape the parser builds: every bracket node carries its
/// opening token and every leaf carries a literal token.
pub open spec fn wf_tree(t: AstV) -> bool
    decreases t,
{
    t.node is Some && {
        let tok = t.node->Some_0;
        if tok.tok_type is Oparen || tok.tok_type is OpenList {
            wf_trees(t.children)
        } else if tok.tok_type is Func || tok.tok_type is Number || tok.tok_type is StrType {
            t.children.len() == 0
        } else {
            false
        }
    }
}

/// Every tree of the list is parser-shaped.
pub open spec fn wf_trees(cs: Seq<AstV>) -> bool
    decreases cs,
{
    cs.len() == 0 || (wf_tree(cs[0]) && wf_trees(cs.skip(1)))
}

/// The closing token that ends a bracket of the given kind.
pub open spec fn close_tok(k: Type) -> TokenV {
    if k is Oparen {
        TokenV { lexed: seq![')'], tok_type: Type::Cparen, is_lexed: true, must_append: false }
    } else {
        TokenV { lexed: seq!['>'], tok_type: Type::CloseList, is_lexed: true, must_append: false }
    }
}

/// The balanced token sequence a parser-shaped tree flattens to: its
/// opening token, its children's tokens, and the matching closing token;
/// a leaf is its own one token.
pub open spec fn tokens_of(t: AstV) -> Seq<TokenV>
    decreases t,
{
    let tok = t.node->Some_0;
    if tok.tok_type is Oparen || tok.tok_type is OpenList {
        seq![tok].add(tokens_of_seq(t.children)).push(close_tok(tok.tok_type))
    } else {
        seq![tok]
    }
}

/// The token sequences of a tree list, in order.
pub open spec fn tokens_of_seq(cs: Seq<AstV>) -> Seq<TokenV>
    decreases cs,
{
    if cs.len() == 0 {
        Seq::empty()
    } else {
        tokens_of(cs[0]).add(tokens_of_seq(cs.skip(1)))
    }
}

/// Feeding one parser-shaped form appends exactly that form as one more
/// child of the stack's top node.
proof fn lemma_parse_form(st: Seq<AstV>, t: AstV)
    requires
        wf_tree(t),
        st.len() >= 1,
        st.last().node is Some || t.node->Some_0.tok_type is Oparen
            || t.node->Some_0.tok_type is OpenList,
    ensures
        spec_parse_run(st, tokens_of(t)) == Some(
            st.update(
                st.len() - 1,
                AstV { node: st.last().node, children: st.last().children.push(t) },
            ),
        ),
    decreases t,
{
    reveal_with_fuel(spec_parse_run, 3);
    let tok = t.node->Some_0;
    let target = st.update(
        st.len() - 1,
        AstV { node: st.last().node, children: st.last().children.push(t) },
    );
    if tok.tok_type is Oparen || tok.tok_type is OpenList {
        let opened = st.push(ast_leaf(tok));
        assert(seq![tok].drop_last() =~= Seq::<TokenV>::empty());
        assert(spec_parse_run(st, seq![tok]) == Some(opened));
        lemma_parse_forms(opened, t.children);
        let built = AstV {
            node: Some(tok),
            children: ast_leaf(tok).children.add(t.children),
        };
        let after_kids = opened.update(opened.len() - 1, built);
        assert(opened.last() == ast_leaf(tok));
        lemma_parse_run_cat(st, seq![tok], tokens_of_seq(t.children));
        let body = seq![tok].add(tokens_of_seq(t.children));
        assert(spec_parse_run(st, body) == Some(after_kids));
        let all = body.push(close_tok(tok.tok_type));
        assert(all.drop_last() =~= body);
        assert(all.last() == close_tok(tok.tok_type));
        assert(tokens_of(t) =~= all);
        assert(after_kids.len() == st.len() + 1);
        assert(after_kids.last() == built);
        assert(built.children =~= t.children);
        assert(built == t);
        if st.len() >= 1 {
            let parent = after_kids[after_kids.len() - 2];
            assert(parent == st.last());
            assert(spec_parse_close(after_kids, close_tok(tok.tok_type)) == Some(
                after_kids.drop_last().drop_last().push(
                    AstV { children: parent.children.push(built), ..parent },
                ),
            ));
            assert(after_kids.drop_last() =~= st);
            assert(after_kids.drop_last().drop_last() =~= st.drop_last());
            assert(st.drop_last().push(
                AstV { children: st.last().children.push(t), node: st.last().node },
            ) =~= target);
        }
    } else {
        assert(seq![tok].drop_last() =~= Seq::<TokenV>::empty());
        assert(ast_leaf(tok).children =~= t.children);
        assert(ast_leaf(tok) == t);
        assert(st.drop_last().push(
            AstV { children: st.last().children.push(ast_leaf(tok)), ..st.last() },
        ) =~= target);
    }
}

/// Feeding a list of parser-shaped forms appends them all, in order, as
/// children of the stack's top node.
proof fn lemma_parse_forms(st: Seq<AstV>, cs: Seq<AstV>)
    requires
        wf_trees(cs),
        st.len() >= 1,
        st.last().node is Some,
    ensures
        spec_parse_run(st, tokens_of_seq(cs)) == Some(
            st.update(
                st.len() - 1,
                AstV { node: st.last().node, children: st.last().children.add(cs) },
            ),
        ),
    decreases cs,
{
    reveal_with_fuel(spec_parse_run, 3);
    let target = st.update(
        st.len() - 1,
        AstV { node: st.last().node, children: st.last().children.add(cs) },
    );
    if cs.len() == 0 {
        assert(spec_parse_run(st, tokens_of_seq(cs)) == Some(st));
        assert(st.last().children.add(cs) =~= st.last().children);
        assert(target[st.len() - 1] =~= st.last());
        assert(target =~= st);
    } else {
        lemma_parse_form(st, cs[0]);
        let mid = st.update(
            st.len() - 1,
            AstV { node: st.last().node, children: st.last().children.push(cs[0]) },
        );
        lemma_parse_forms(mid, cs.skip(1));
        lemma_parse_run_cat(st, tokens_of(cs[0]), tokens_of_seq(cs.skip(1)));
        assert(mid.last() == (AstV {
            node: st.last().node,
            children: st.last().children.push(cs[0]),
        }));
        let fin = mid.update(
            mid.len() - 1,
            AstV { node: mid.last().node, children: mid.last().children.add(cs.skip(1)) },
        );
        assert(st.last().children.push(cs[0]).add(cs.skip(1)) =~= st.last().children.add(cs));
        assert(fin =~= target);
    }
}

/// One balanced, parser-shaped bracket form parses to exactly one child
/// of the synthetic root, and that child is the form itself.
pub proof fn lemma_wf_form_parses(t: AstV)
    requires
        wf_tree(t),
        t.node->Some_0.tok_type is Oparen || t.node->Some_0.tok_type is OpenList,
    ensures
        spec_parse_run(
            seq![AstV { node: None, children: Seq::empty() }],
            tokens_of(t),
        ) == Some(seq![AstV { node: None, children: seq![t] }]),
{
    reveal_with_fuel(spec_parse_run, 3);
    let init = seq![AstV { node: None, children: Seq::<AstV>::empty() }];
    lemma_parse_form(init, t);
    assert(init.update(
        0,
        AstV { node: init.last().node, children: init.last().children.push(t) },
    ) =~= seq![AstV { node: None, children: seq![t] }]);
}

} // verus!
