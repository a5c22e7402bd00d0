//! The builtin dispatch protocol: recognition of the `set` / `let`
//! definition forms and their internal marker sub-forms, the output and
//! arithmetic builtins, and the tagged outcomes that tell the evaluator
//! what to do next.

use vstd::prelude::*;

use crate::ast::{Ast, AstTrait, AstV};
use crate::scope::{
    scope_lookup, scope_reset, scope_wf, spec_insert_outer, spec_put_outer, Func, FuncV, Scope,
};
use crate::num::{
    mant_in_range, spec_numeral, spec_render, Dec, DecV, SCALE_CAP,
    spec_dec_add, spec_dec_mul, spec_dec_sub, spec_dec_div, spec_int_div, parse_numeral,
};
use crate::strutil::str_eq;
use crate::token::{TokenTrait, TokenV, Type};

verus! {

/// What a builtin asks the evaluator to do with a fully expanded call.
pub enum EvalResult<T: AstTrait> {
    /// Replace the call with this finished node.
    Push(T),
    /// Keep this node on the work stack: more processing is needed.
    Insert(T),
    /// The call contributes nothing; drop it and continue.
    Ignore,
    /// Malformed call: abort evaluation.
    Error,
}

impl<T: AstTrait> EvalResult<T> {
    /// The node inside `Push`.
    pub fn unwrap_push(self) -> (r: T)
        requires
            self is Push,
        ensures
            r == self->Push_0,
    {
        match self {
            EvalResult::Push(res) => res,
            _ => unreached(),
        }
    }

    /// The node inside `Insert`.
    pub fn unwrap_insert(self) -> (r: T)
        requires
            self is Insert,
        ensures
            r == self->Insert_0,
    {
        match self {
            EvalResult::Insert(res) => res,
            _ => unreached(),
        }
    }

    /// Whether this is `Insert`.
    pub fn is_insert(&self) -> (r: bool)
        ensures
            r == (self is Insert),
    {
        matches!(self, EvalResult::Insert(_))
    }

    /// Whether this is `Push`.
    pub fn is_push(&self) -> (r: bool)
        ensures
            r == (self is Push),
    {
        matches!(self, EvalResult::Push(_))
    }

    /// Whether this is `Error`.
    pub fn is_error(&self) -> (r: bool)
        ensures
            r == (self is Error),
    {
        matches!(self, EvalResult::Error)
    }

    /// Whether this is `Ignore`.
    pub fn is_ignore(&self) -> (r: bool)
        ensures
            r == (self is Ignore),
    {
        matches!(self, EvalResult::Ignore)
    }
}

/// What the definition pipeline found in a node.
pub enum SetEval<T: AstTrait> {
    /// A definition form was rewritten; its children still need work.
    Skip(T),
    /// A marker sub-form was consumed; reinsert this remainder and move on.
    Remove(T),
    /// Not a definition form: pass the node through unchanged.
    Other(T),
    /// Malformed node: abort evaluation.
    Error,
}

impl<T: AstTrait> SetEval<T> {
    /// Whether this is `Skip`.
    pub fn is_skip(&self) -> (r: bool)
        ensures
            r == (self is Skip),
    {
        matches!(self, SetEval::Skip(_))
    }

    /// Whether this is `Remove`.
    pub fn is_remove(&self) -> (r: bool)
        ensures
            r == (self is Remove),
    {
        matches!(self, SetEval::Remove(_))
    }

    /// Whether this is `Other`.
    pub fn is_other(&self) -> (r: bool)
        ensures
            r == (self is Other),
    {
        matches!(self, SetEval::Other(_))
    }

    /// Whether this is `Error`.
    pub fn is_error(&self) -> (r: bool)
        ensures
            r == (self is Error),
    {
        matches!(self, SetEval::Error)
    }

    /// The node inside `Skip`.
    pub fn unwrap_skip(self) -> (r: T)
        requires
            self is Skip,
        ensures
            r == self->Skip_0,
    {
        match self {
            SetEval::Skip(t) => t,
            _ => unreached(),
        }
    }

    /// The node inside `Remove`.
    pub fn unwrap_remove(self) -> (r: T)
        requires
            self is Remove,
        ensures
            r == self->Remove_0,
    {
        match self {
            SetEval::Remove(t) => t,
            _ => unreached(),
        }
    }

    /// The node inside `Other`.
    pub fn unwrap_other(self) -> (r: T)
        requires
            self is Other,
        ensures
            r == self->Other_0,
    {
        match self {
            SetEval::Other(t) => t,
            _ => unreached(),
        }
    }
}

/// The lexemes of the node's children, when every child carries a token.
pub open spec fn spec_texts(cs: Seq<AstV>) -> Option<Seq<Seq<char>>>
    decreases cs.len(),
{
    if cs.len() == 0 {
        Some(Seq::empty())
    } else {
        match spec_texts(cs.drop_last()) {
            Some(ts) => if cs.last().node is Some {
                Some(ts.push(cs.last().node->Some_0.lexed))
            } else {
                None
            },
            None => None,
        }
    }
}

/// The texts joined in order, each followed by a newline when asked.
pub open spec fn spec_join(ts: Seq<Seq<char>>, newline: bool) -> Seq<char>
    decreases ts.len(),
{
    if ts.len() == 0 {
        Seq::empty()
    } else {
        spec_join(ts.drop_last(), newline).add(
            if newline {
                ts.last().push('\n')
            } else {
                ts.last()
            },
        )
    }
}

/// Write each child's literal text onto the output, in order.
fn print(mut ast: Ast, out: &mut String) -> (r: EvalResult<Ast>)
    ensures
        spec_texts(ast@.children) is None ==> r is Error && final(out)@ == old(out)@,
        spec_texts(ast@.children) is Some ==> r is Ignore && final(out)@ == old(out)@
            + spec_join(spec_texts(ast@.children)->Some_0, false),
{
    emit(ast.dump_children(), false, out)
}

/// Write each child's literal text onto the output, a newline after each.
fn println(mut ast: Ast, out: &mut String) -> (r: EvalResult<Ast>)
    ensures
        spec_texts(ast@.children) is None ==> r is Error && final(out)@ == old(out)@,
        spec_texts(ast@.children) is Some ==> r is Ignore && final(out)@ == old(out)@
            + spec_join(spec_texts(ast@.children)->Some_0, true),
{
    emit(ast.dump_children(), true, out)
}

/// The shared body of the output builtins: gather every child's text,
/// then append them all, or fail without output when a child has none.
fn emit(children: Vec<Ast>, newline: bool, out: &mut String) -> (r: EvalResult<Ast>)
    ensures
        spec_texts(children.deep_view()) is None ==> r is Error && final(out)@ == old(out)@,
        spec_texts(children.deep_view()) is Some ==> r is Ignore && final(out)@ == old(out)@
            + spec_join(spec_texts(children.deep_view())->Some_0, newline),
{
    let ghost cs = children.deep_view();
    let mut gathered = String::new();
    let n = children.len();
    let mut i: usize = 0;
    while i < n
        invariant
            0 <= i <= n,
            n == children.len(),
            cs == children.deep_view(),
            spec_texts(cs.take(i as int)) is Some,
            gathered@ == spec_join(spec_texts(cs.take(i as int))->Some_0, newline),
        decreases n - i,
    {
        proof {
            assert(cs.take(i + 1).drop_last() =~= cs.take(i as int));
            assert(cs.take(i + 1).last() == cs[i as int]);
        }
        match &children[i].node_val {
            Some(tok) => {
                let text = tok.get_lexed();
                gathered.append(text.as_str());
                if newline {
                    crate::strutil::push_char(&mut gathered, '\n');
                }
            },
            None => {
                proof {
                    lemma_texts_none_extends(cs, i + 1);
                }
                return EvalResult::Error;
            },
        }
        proof {
            assert(spec_texts(cs.take(i + 1))->Some_0.drop_last() =~= spec_texts(
                cs.take(i as int),
            )->Some_0);
            assert(gathered@ =~= spec_join(spec_texts(cs.take(i + 1))->Some_0, newline));
        }
        i = i + 1;
    }
    proof {
        assert(cs.take(n as int) =~= cs);
    }
    out.append(gathered.as_str());
    EvalResult::Ignore
}

/// Once a prefix of the children lacks a text, the whole list does.
proof fn lemma_texts_none_extends(cs: Seq<AstV>, i: int)
    requires
        0 <= i <= cs.len(),
        spec_texts(cs.take(i)) is None,
    ensures
        spec_texts(cs) is None,
    decreases cs.len() - i,
{
    if i < cs.len() {
        assert(cs.take(i + 1).drop_last() =~= cs.take(i));
        lemma_texts_none_extends(cs, i + 1);
    } else {
        assert(cs.take(i) =~= cs);
    }
}

/// The name bound by a definition form: the first child's first child's
/// lexeme.
pub open spec fn spec_def_name(t: AstV) -> Option<Seq<char>> {
    if t.children.len() >= 1 && t.children[0].children.len() >= 1 && t.children[0].children[0].node
        is Some {
        Some(t.children[0].children[0].node->Some_0.lexed)
    } else {
        None
    }
}

/// Install a function definition: the children are the name sub-form,
/// the parameter tree and the body tree.  A name already visible
/// somewhere in the chain is rebound in place; otherwise a fresh entry
/// goes into the innermost frame.
fn set(mut ast: Ast, scope: &mut Scope) -> (r: EvalResult<Ast>)
    requires
        scope_wf(old(scope)@),
    ensures
        scope_wf(final(scope)@),
        !(ast@.children.len() >= 3 && spec_def_name(ast@) is Some) ==> r is Error && final(scope)@
            == old(scope)@,
        ast@.children.len() >= 3 && spec_def_name(ast@) is Some ==> {
            let n = spec_def_name(ast@)->Some_0;
            let p = ast@.children[1];
            let b = ast@.children[2];
            r is Ignore && (if scope_lookup(old(scope)@, n) is Some {
                Some(final(scope)@) == scope_reset(old(scope)@, n, p, b)
            } else {
                final(scope)@ == spec_insert_outer(old(scope)@, FuncV { name: n, params: p, body: b })
            })
        },
{
    if ast.child_count() < 3 {
        return EvalResult::Error;
    }
    let mut children = ast.dump_children();
    let mut name_grp = children.remove(0);
    let name = match name_grp.get_child(0) {
        Some(name_node) => match name_node.node_val {
            Some(tok) => tok.get_lexed(),
            None => {
                return EvalResult::Error;
            },
        },
        None => {
            return EvalResult::Error;
        },
    };
    let params = children.remove(0);
    let body = children.remove(0);
    if scope.find_func(&name).is_some() {
        let reset = scope.reset_func(&name, params, body);
        proof {
            assert(reset);
        }
    } else {
        scope.insert_func_no_search_outer(Func::new(name, params, body));
    }
    EvalResult::Ignore
}

/// Install a local binding: the children are the name sub-form and the
/// bound tree; the parameter list is empty.  The binding always goes
/// into the scope the form stands in — fresh, or overwriting an entry of
/// that name in the same frame — and never rebinds an enclosing frame,
/// so a shadowed outer binding comes back when this nesting closes.
fn let_eval(mut ast: Ast, scope: &mut Scope) -> (r: EvalResult<Ast>)
    requires
        scope_wf(old(scope)@),
    ensures
        scope_wf(final(scope)@),
        !(ast@.children.len() >= 2 && spec_def_name(ast@) is Some) ==> r is Error && final(scope)@
            == old(scope)@,
        ast@.children.len() >= 2 && spec_def_name(ast@) is Some ==> {
            let n = spec_def_name(ast@)->Some_0;
            let p = AstV { node: None, children: Seq::empty() };
            let b = ast@.children[1];
            r is Ignore && final(scope)@ == spec_put_outer(
                old(scope)@,
                FuncV { name: n, params: p, body: b },
            )
        },
{
    if ast.child_count() < 2 {
        return EvalResult::Error;
    }
    let mut children = ast.dump_children();
    let mut name_grp = children.remove(0);
    let name = match name_grp.get_child(0) {
        Some(name_node) => match name_node.node_val {
            Some(tok) => tok.get_lexed(),
            None => {
                return EvalResult::Error;
            },
        },
        None => {
            return EvalResult::Error;
        },
    };
    let body = children.remove(0);
    scope.install_func_outer(Func::new(name, Ast::new_null(), body));
    EvalResult::Ignore
}

/// A token node whose lexeme was replaced.
pub open spec fn spec_relabel(t: AstV, lex: Seq<char>) -> AstV {
    AstV { node: Some(TokenV { lexed: lex, ..t.node->Some_0 }), children: t.children }
}

/// Recognize the definition forms in a node whose operator was just
/// attached: `set` and `let` are relabelled for later installation; the
/// marker sub-forms `name` / `params` / `body` are consumed; anything
/// else passes through unchanged.
pub fn evaluate_set_funcs(mut ast: Ast) -> (r: SetEval<Ast>)
    ensures
        ast@.children.len() == 0 ==> r is Error,
        ast@.children.len() > 0 && ast@.children[0].node is None ==> r is Error,
        ast@.children.len() > 0 && ast@.children[0].node is Some ==> {
            let lex = ast@.children[0].node->Some_0.lexed;
            if lex == "set"@ {
                r is Skip && r->Skip_0@ == (AstV {
                    node: ast@.node,
                    children: ast@.children.update(0, spec_relabel(ast@.children[0], "seteval"@)),
                })
            } else if lex == "let"@ {
                r is Skip && r->Skip_0@ == (AstV {
                    node: ast@.node,
                    children: ast@.children.update(0, spec_relabel(ast@.children[0], "leteval"@)),
                })
            } else if lex == "name"@ || lex == "params"@ {
                r is Remove && r->Remove_0@ == (AstV {
                    node: ast@.node,
                    children: ast@.children.skip(1),
                })
            } else if lex == "body"@ {
                if ast@.children.len() >= 2 {
                    r is Remove && r->Remove_0@ == ast@.children[1]
                } else {
                    r is Error
                }
            } else {
                r is Other && r->Other_0@ == ast@
            }
        },
{
    let ghost t = ast@;
    match ast.get_child(0) {
        Some(mut child) => {
            let mut node = match child.node_val {
                Some(node) => node,
                None => {
                    return SetEval::Error;
                },
            };
            let lexed = node.get_lexed();
            if str_eq(lexed.as_str(), "set") {
                node.set_lexed("seteval".to_owned());
                child.node_val = Some(node);
                let _ok = ast.insert_child(child, 0);
                proof {
                    assert(ast@.children =~= t.children.update(
                        0,
                        spec_relabel(t.children[0], "seteval"@),
                    ));
                }
                SetEval::Skip(ast)
            } else if str_eq(lexed.as_str(), "let") {
                node.set_lexed("leteval".to_owned());
                child.node_val = Some(node);
                let _ok = ast.insert_child(child, 0);
                proof {
                    assert(ast@.children =~= t.children.update(
                        0,
                        spec_relabel(t.children[0], "leteval"@),
                    ));
                }
                SetEval::Skip(ast)
            } else if str_eq(lexed.as_str(), "name") || str_eq(lexed.as_str(), "params") {
                proof {
                    assert(ast@.children =~= t.children.skip(1));
                }
                SetEval::Remove(ast)
            } else if str_eq(lexed.as_str(), "body") {
                match ast.get_child(0) {
                    Some(inner) => SetEval::Remove(inner),
                    None => SetEval::Error,
                }
            } else {
                child.node_val = Some(node);
                let _ok = ast.insert_child(child, 0);
                proof {
                    assert(ast@.children =~= t.children);
                    assert(ast@ =~= t);
                }
                SetEval::Other(ast)
            }
        },
        None => SetEval::Error,
    }
}

/// Route a relabelled definition node to its installer; anything else is
/// handed back for ordinary builtin dispatch.
pub fn evaluate_set(mut ast: Ast, scope: &mut Scope) -> (r: EvalResult<Ast>)
    requires
        scope_wf(old(scope)@),
    ensures
        scope_wf(final(scope)@),
        ast@.children.len() == 0 ==> r is Error && final(scope)@ == old(scope)@,
        ast@.children.len() > 0 && ast@.children[0].node is None ==> r is Error && final(scope)@
            == old(scope)@,
        ast@.children.len() > 0 && ast@.children[0].node is Some ==> {
            let lex = ast@.children[0].node->Some_0.lexed;
            let rest = AstV { node: ast@.node, children: ast@.children.skip(1) };
            if lex == "seteval"@ {
                spec_install(rest, true, old(scope)@, final(scope)@, r)
            } else if lex == "leteval"@ {
                spec_install(rest, false, old(scope)@, final(scope)@, r)
            } else {
                r is Insert && r->Insert_0@ == ast@ && final(scope)@ == old(scope)@
            }
        },
{
    let ghost t = ast@;
    match ast.get_child(0) {
        Some(mut child) => {
            let node = match child.node_val {
                Some(node) => node,
                None => {
                    return EvalResult::Error;
                },
            };
            let lexed = node.get_lexed();
            if str_eq(lexed.as_str(), "seteval") {
                proof {
                    assert(ast@.children =~= t.children.skip(1));
                }
                set(ast, scope)
            } else if str_eq(lexed.as_str(), "leteval") {
                proof {
                    assert(ast@.children =~= t.children.skip(1));
                }
                let_eval(ast, scope)
            } else {
                child.node_val = Some(node);
                let _ok = ast.insert_child(child, 0);
                proof {
                    assert(ast@.children =~= t.children);
                    assert(ast@ =~= t);
                }
                EvalResult::Insert(ast)
            }
        },
        None => EvalResult::Error,
    }
}

/// What installing a definition (via `set` when `with_params`, via
/// `let` otherwise) does to the scope and the outcome.
pub open spec fn spec_install(
    t: AstV,
    with_params: bool,
    pre: Seq<Seq<FuncV>>,
    post: Seq<Seq<FuncV>>,
    r: EvalResult<Ast>,
) -> bool {
    let need: int = if with_params {
        3
    } else {
        2
    };
    if !(t.children.len() >= need && spec_def_name(t) is Some) {
        r is Error && post == pre
    } else {
        let n = spec_def_name(t)->Some_0;
        let p = if with_params {
            t.children[1]
        } else {
            AstV { node: None, children: Seq::empty() }
        };
        let b = if with_params {
            t.children[2]
        } else {
            t.children[1]
        };
        r is Ignore && (if with_params {
            if scope_lookup(pre, n) is Some {
                Some(post) == scope_reset(pre, n, p, b)
            } else {
                post == spec_insert_outer(pre, FuncV { name: n, params: p, body: b })
            }
        } else {
            post == spec_put_outer(pre, FuncV { name: n, params: p, body: b })
        })
    }
}

/// The synthetic local-binding form that pairs one formal parameter with
/// its actual argument: `(let (name tok) (body ast))`.
pub open spec fn spec_let_ast(tok: TokenV, t: AstV) -> AstV {
    AstV {
        node: Some(
            TokenV { lexed: "("@, tok_type: Type::Oparen, is_lexed: true, must_append: false },
        ),
        children: seq![
            AstV {
                node: Some(
                    TokenV {
                        lexed: "let"@,
                        tok_type: Type::Func,
                        is_lexed: true,
                        must_append: false,
                    },
                ),
                children: Seq::empty(),
            },
            AstV {
                node: Some(
                    TokenV {
                        lexed: "("@,
                        tok_type: Type::Oparen,
                        is_lexed: true,
                        must_append: false,
                    },
                ),
                children: seq![
                    AstV {
                        node: Some(
                            TokenV {
                                lexed: "name"@,
                                tok_type: Type::Func,
                                is_lexed: true,
                                must_append: false,
                            },
                        ),
                        children: Seq::empty(),
                    },
                    AstV { node: Some(tok), children: Seq::empty() },
                ],
            },
            AstV {
                node: Some(
                    TokenV {
                        lexed: "("@,
                        tok_type: Type::Oparen,
                        is_lexed: true,
                        must_append: false,
                    },
                ),
                children: seq![
                    AstV {
                        node: Some(
                            TokenV {
                                lexed: "body"@,
                                tok_type: Type::Func,
                                is_lexed: true,
                                must_append: false,
                            },
                        ),
                        children: Seq::empty(),
                    },
                    t,
                ],
            },
        ],
    }
}

/// Build the synthetic local-binding form used by function expansion.
pub fn generate_let_ast(tok: crate::token::Token, ast: Ast) -> (r: Ast)
    ensures
        r@ == spec_let_ast(tok@, ast@),
{
    let mut func_ast = Ast::new(crate::token::Token::new_preset("(".to_owned(), Type::Oparen));
    func_ast.push_child(Ast::new(crate::token::Token::new_preset("let".to_owned(), Type::Func)));
    let mut func_name = Ast::new(crate::token::Token::new_preset("(".to_owned(), Type::Oparen));
    func_name.push_child(
        Ast::new(crate::token::Token::new_preset("name".to_owned(), Type::Func)),
    );
    func_name.push_child(Ast::new(tok));
    func_ast.push_child(func_name);
    let mut func_body = Ast::new(crate::token::Token::new_preset("(".to_owned(), Type::Oparen));
    func_body.push_child(
        Ast::new(crate::token::Token::new_preset("body".to_owned(), Type::Func)),
    );
    func_body.push_child(ast);
    func_ast.push_child(func_body);
    proof {
        assert(func_ast@.children[1].children =~= spec_let_ast(tok@, ast@).children[1].children);
        assert(func_ast@.children[2].children =~= spec_let_ast(tok@, ast@).children[2].children);
        assert(func_ast@.children =~= spec_let_ast(tok@, ast@).children);
    }
    func_ast
}


/// The operator names the builtin pipeline recognizes.
pub open spec fn spec_is_builtin_name(lex: Seq<char>) -> bool {
    lex == "print"@ || lex == "println"@ || lex == "add"@ || lex == "sub"@ || lex == "mult"@
        || lex == "div"@
}

/// The value a child contributes to an arithmetic builtin: its lexeme
/// read as a numeral, when that is valid and in the machine range.
pub open spec fn spec_child_num(c: AstV) -> Option<DecV> {
    if c.node is Some {
        let n = spec_numeral(c.node->Some_0.lexed);
        if n.valid && mant_in_range(n.mant) && n.scale <= SCALE_CAP {
            Some(DecV { mant: n.mant, scale: n.scale })
        } else {
            None
        }
    } else {
        None
    }
}

/// The children's values in order, or `None` when any child is not a
/// usable numeral.
pub open spec fn spec_vals(cs: Seq<AstV>) -> Option<Seq<DecV>>
    decreases cs.len(),
{
    if cs.len() == 0 {
        Some(Seq::empty())
    } else {
        match (spec_vals(cs.drop_last()), spec_child_num(cs.last())) {
            (Some(vs), Some(v)) => Some(vs.push(v)),
            _ => None,
        }
    }
}

/// Whether a child's text carries a decimal point.
pub open spec fn spec_dot(c: AstV) -> bool {
    c.node is Some && spec_numeral(c.node->Some_0.lexed).dot
}

/// The children's decimal-point marks, in order.
pub open spec fn spec_dots(cs: Seq<AstV>) -> Seq<bool> {
    Seq::new(cs.len(), |i: int| spec_dot(cs[i]))
}

/// The running total of `add`: a left fold from zero.
pub open spec fn spec_fold_add(vs: Seq<DecV>) -> Option<DecV>
    decreases vs.len(),
{
    if vs.len() == 0 {
        Some(DecV { mant: 0, scale: 0 })
    } else {
        match spec_fold_add(vs.drop_last()) {
            Some(acc) => spec_dec_add(acc, vs.last()),
            None => None,
        }
    }
}

/// The running product of `mult`: a left fold from one.
pub open spec fn spec_fold_mul(vs: Seq<DecV>) -> Option<DecV>
    decreases vs.len(),
{
    if vs.len() == 0 {
        Some(DecV { mant: 1, scale: 0 })
    } else {
        match spec_fold_mul(vs.drop_last()) {
            Some(acc) => spec_dec_mul(acc, vs.last()),
            None => None,
        }
    }
}

/// The left fold of `sub`: the first value, each later one subtracted.
pub open spec fn spec_fold_sub(vs: Seq<DecV>) -> Option<DecV>
    decreases vs.len(),
{
    if vs.len() == 0 {
        None
    } else if vs.len() == 1 {
        Some(vs[0])
    } else {
        match spec_fold_sub(vs.drop_last()) {
            Some(acc) => spec_dec_sub(acc, vs.last()),
            None => None,
        }
    }
}

/// The left fold of `div`: the first value, each later one divided out.
/// Division is integral (truncating) until the first operand whose text
/// carries a decimal point, and decimal from then on; the flag carries
/// whether the fold has been promoted.
pub open spec fn spec_fold_div(vs: Seq<DecV>, dots: Seq<bool>) -> Option<(DecV, bool)>
    decreases vs.len(),
{
    if vs.len() == 0 || vs.len() != dots.len() {
        None
    } else if vs.len() == 1 {
        Some((vs[0], dots[0]))
    } else {
        match spec_fold_div(vs.drop_last(), dots.drop_last()) {
            Some(acc) => {
                let promoted = acc.1 || dots.last();
                match (if promoted {
                    spec_dec_div(acc.0, vs.last())
                } else {
                    spec_int_div(acc.0, vs.last())
                }) {
                    Some(v) => Some((v, promoted)),
                    None => None,
                }
            },
            None => None,
        }
    }
}

/// What `add` leaves for the tree: the sum of all children, or nothing
/// on an empty call, an unusable child, or a value out of range.
pub open spec fn spec_add_tree(t: AstV) -> Option<DecV> {
    if t.children.len() == 0 {
        None
    } else {
        match spec_vals(t.children) {
            Some(vs) => spec_fold_add(vs),
            None => None,
        }
    }
}

/// What `mult` leaves for the tree.
pub open spec fn spec_mul_tree(t: AstV) -> Option<DecV> {
    if t.children.len() == 0 {
        None
    } else {
        match spec_vals(t.children) {
            Some(vs) => spec_fold_mul(vs),
            None => None,
        }
    }
}

/// What `sub` leaves for the tree.
pub open spec fn spec_sub_tree(t: AstV) -> Option<DecV> {
    if t.children.len() == 0 {
        None
    } else {
        match spec_vals(t.children) {
            Some(vs) => spec_fold_sub(vs),
            None => None,
        }
    }
}

/// What `div` leaves for the tree.
pub open spec fn spec_div_tree(t: AstV) -> Option<DecV> {
    if t.children.len() == 0 {
        None
    } else {
        match spec_vals(t.children) {
            Some(vs) => match spec_fold_div(vs, spec_dots(t.children)) {
                Some(acc) => Some(acc.0),
                None => None,
            },
            None => None,
        }
    }
}

/// The literal node that replaces a finished arithmetic call.
pub open spec fn spec_number_node(v: DecV) -> AstV {
    AstV {
        node: Some(
            TokenV {
                lexed: spec_render(v),
                tok_type: Type::Number,
                is_lexed: true,
                must_append: false,
            },
        ),
        children: Seq::empty(),
    }
}

/// Once a prefix of the children is unusable, the whole list is.
proof fn lemma_vals_none_extends(cs: Seq<AstV>, i: int)
    requires
        0 <= i <= cs.len(),
        spec_vals(cs.take(i)) is None,
    ensures
        spec_vals(cs) is None,
    decreases cs.len() - i,
{
    if i < cs.len() {
        assert(cs.take(i + 1).drop_last() =~= cs.take(i));
        lemma_vals_none_extends(cs, i + 1);
    } else {
        assert(cs.take(i) =~= cs);
    }
}

/// Every value a child list yields is in the machine range, on a scale
/// the cap allows.
proof fn lemma_vals_elements(cs: Seq<AstV>)
    requires
        spec_vals(cs) is Some,
    ensures
        forall|i: int|
            0 <= i < spec_vals(cs)->Some_0.len() ==> mant_in_range(
                (#[trigger] spec_vals(cs)->Some_0[i]).mant,
            ) && spec_vals(cs)->Some_0[i].scale <= SCALE_CAP,
        spec_vals(cs)->Some_0.len() == cs.len(),
    decreases cs.len(),
{
    if cs.len() > 0 {
        lemma_vals_elements(cs.drop_last());
    }
}

/// Read every child as a numeral: the values and the decimal-point
/// marks, or `None` when any child is unusable.
fn parse_vals(children: &Vec<Ast>) -> (r: Option<(Vec<Dec>, Vec<bool>)>)
    ensures
        (spec_vals(children.deep_view()) is Some) <==> r is Some,
        r is Some ==> r->Some_0.0.deep_view() == spec_vals(children.deep_view())->Some_0
            && r->Some_0.1@ == spec_dots(children.deep_view()),
{
    let ghost cs = children.deep_view();
    let mut vals: Vec<Dec> = Vec::new();
    let mut dots: Vec<bool> = Vec::new();
    let n = children.len();
    let mut i: usize = 0;
    while i < n
        invariant
            0 <= i <= n,
            n == children.len(),
            cs == children.deep_view(),
            spec_vals(cs.take(i as int)) is Some,
            vals.deep_view() == spec_vals(cs.take(i as int))->Some_0,
            dots@ =~= spec_dots(cs.take(i as int)),
        decreases n - i,
    {
        proof {
            assert(cs.take(i + 1).drop_last() =~= cs.take(i as int));
            assert(cs.take(i + 1).last() == cs[i as int]);
        }
        match &children[i].node_val {
            Some(tok) => {
                let lexed = tok.get_lexed();
                match parse_numeral(lexed.as_str()) {
                    Some((d, dot)) => {
                        vals.push(d);
                        dots.push(dot);
                        proof {
                            assert(vals.deep_view() =~= spec_vals(cs.take(i + 1))->Some_0);
                            assert forall|j: int| 0 <= j < i + 1 implies dots@[j] == spec_dots(
                                cs.take(i + 1),
                            )[j] by {
                                assert(cs.take(i + 1)[j] == cs[j]);
                                if j < i {
                                    assert(spec_dots(cs.take(i as int))[j] == spec_dot(
                                        cs.take(i as int)[j],
                                    ));
                                    assert(cs.take(i as int)[j] == cs[j]);
                                }
                            }
                            assert(dots@ =~= spec_dots(cs.take(i + 1)));
                        }
                    },
                    None => {
                        proof {
                            lemma_vals_none_extends(cs, i + 1);
                        }
                        return None;
                    },
                }
            },
            None => {
                proof {
                    lemma_vals_none_extends(cs, i + 1);
                }
                return None;
            },
        }
        i = i + 1;
    }
    proof {
        assert(cs.take(n as int) =~= cs);
    }
    Some((vals, dots))
}

/// Once a prefix of the fold fails, the whole fold fails.
proof fn lemma_fold_add_none_extends(vs: Seq<DecV>, i: int)
    requires
        0 <= i <= vs.len(),
        spec_fold_add(vs.take(i)) is None,
    ensures
        spec_fold_add(vs) is None,
    decreases vs.len() - i,
{
    if i < vs.len() {
        assert(vs.take(i + 1).drop_last() =~= vs.take(i));
        lemma_fold_add_none_extends(vs, i + 1);
    } else {
        assert(vs.take(i) =~= vs);
    }
}

proof fn lemma_fold_mul_none_extends(vs: Seq<DecV>, i: int)
    requires
        0 <= i <= vs.len(),
        spec_fold_mul(vs.take(i)) is None,
    ensures
        spec_fold_mul(vs) is None,
    decreases vs.len() - i,
{
    if i < vs.len() {
        assert(vs.take(i + 1).drop_last() =~= vs.take(i));
        lemma_fold_mul_none_extends(vs, i + 1);
    } else {
        assert(vs.take(i) =~= vs);
    }
}

proof fn lemma_fold_sub_none_extends(vs: Seq<DecV>, i: int)
    requires
        1 <= i <= vs.len(),
        spec_fold_sub(vs.take(i)) is None,
    ensures
        spec_fold_sub(vs) is None,
    decreases vs.len() - i,
{
    if i < vs.len() {
        assert(vs.take(i + 1).drop_last() =~= vs.take(i));
        lemma_fold_sub_none_extends(vs, i + 1);
    } else {
        assert(vs.take(i) =~= vs);
    }
}

proof fn lemma_fold_div_none_extends(vs: Seq<DecV>, dots: Seq<bool>, i: int)
    requires
        1 <= i <= vs.len(),
        vs.len() == dots.len(),
        spec_fold_div(vs.take(i), dots.take(i)) is None,
    ensures
        spec_fold_div(vs, dots) is None,
    decreases vs.len() - i,
{
    if i < vs.len() {
        assert(vs.take(i + 1).drop_last() =~= vs.take(i));
        assert(dots.take(i + 1).drop_last() =~= dots.take(i));
        lemma_fold_div_none_extends(vs, dots, i + 1);
    } else {
        assert(vs.take(i) =~= vs);
        assert(dots.take(i) =~= dots);
    }
}

/// Fold the values with exact addition.
fn fold_add(vals: &Vec<Dec>) -> (r: Option<Dec>)
    ensures
        match r {
            Some(v) => spec_fold_add(vals.deep_view()) == Some(v@),
            None => spec_fold_add(vals.deep_view()) is None,
        },
{
    let ghost vs = vals.deep_view();
    let mut acc = Dec { mant: 0, scale: 0 };
    let n = vals.len();
    let mut i: usize = 0;
    while i < n
        invariant
            0 <= i <= n,
            n == vals.len(),
            vs == vals.deep_view(),
            spec_fold_add(vs.take(i as int)) == Some(acc@),
        decreases n - i,
    {
        proof {
            assert(vs.take(i + 1).drop_last() =~= vs.take(i as int));
            assert(vs.take(i + 1).last() == vs[i as int]);
        }
        acc = match crate::num::dec_add(&acc, &vals[i]) {
            Some(a) => a,
            None => {
                proof {
                    lemma_fold_add_none_extends(vs, i + 1);
                }
                return None;
            },
        };
        i = i + 1;
    }
    proof {
        assert(vs.take(n as int) =~= vs);
    }
    Some(acc)
}

/// Fold the values with exact multiplication.
fn fold_mul(vals: &Vec<Dec>) -> (r: Option<Dec>)
    requires
        forall|i: int|
            0 <= i < vals.deep_view().len() ==> (#[trigger] vals.deep_view()[i]).scale <= SCALE_CAP,
    ensures
        match r {
            Some(v) => spec_fold_mul(vals.deep_view()) == Some(v@),
            None => spec_fold_mul(vals.deep_view()) is None,
        },
{
    let ghost vs = vals.deep_view();
    let mut acc = Dec { mant: 1, scale: 0 };
    let n = vals.len();
    let mut i: usize = 0;
    while i < n
        invariant
            0 <= i <= n,
            n == vals.len(),
            vs == vals.deep_view(),
            forall|j: int| 0 <= j < n ==> (#[trigger] vs[j]).scale <= SCALE_CAP,
            acc@.scale <= SCALE_CAP,
            spec_fold_mul(vs.take(i as int)) == Some(acc@),
        decreases n - i,
    {
        proof {
            assert(vs.take(i + 1).drop_last() =~= vs.take(i as int));
            assert(vs.take(i + 1).last() == vs[i as int]);
        }
        acc = match crate::num::dec_mul(&acc, &vals[i]) {
            Some(a) => a,
            None => {
                proof {
                    lemma_fold_mul_none_extends(vs, i + 1);
                }
                return None;
            },
        };
        i = i + 1;
    }
    proof {
        assert(vs.take(n as int) =~= vs);
    }
    Some(acc)
}

/// Fold the values with exact subtraction from the first.
fn fold_sub(vals: &Vec<Dec>) -> (r: Option<Dec>)
    requires
        vals.deep_view().len() >= 1,
    ensures
        match r {
            Some(v) => spec_fold_sub(vals.deep_view()) == Some(v@),
            None => spec_fold_sub(vals.deep_view()) is None,
        },
{
    let ghost vs = vals.deep_view();
    let mut acc = Dec { mant: vals[0].mant, scale: vals[0].scale };
    let n = vals.len();
    let mut i: usize = 1;
    proof {
        assert(vs.take(1)[0] == vs[0]);
    }
    while i < n
        invariant
            1 <= i <= n,
            n == vals.len(),
            vs == vals.deep_view(),
            spec_fold_sub(vs.take(i as int)) == Some(acc@),
        decreases n - i,
    {
        proof {
            assert(vs.take(i + 1).drop_last() =~= vs.take(i as int));
            assert(vs.take(i + 1).last() == vs[i as int]);
        }
        acc = match crate::num::dec_sub(&acc, &vals[i]) {
            Some(a) => a,
            None => {
                proof {
                    lemma_fold_sub_none_extends(vs, i + 1);
                }
                return None;
            },
        };
        i = i + 1;
    }
    proof {
        assert(vs.take(n as int) =~= vs);
    }
    Some(acc)
}

/// Fold the values with division from the first, promoting at the first
/// decimal-pointed operand.
fn fold_div(vals: &Vec<Dec>, dots: &Vec<bool>) -> (r: Option<Dec>)
    requires
        vals.deep_view().len() >= 1,
        vals.deep_view().len() == dots@.len(),
        forall|i: int|
            0 <= i < vals.deep_view().len() ==> (#[trigger] vals.deep_view()[i]).scale <= SCALE_CAP,
    ensures
        match r {
            Some(v) => spec_fold_div(vals.deep_view(), dots@) is Some && spec_fold_div(
                vals.deep_view(),
                dots@,
            )->Some_0.0 == v@,
            None => spec_fold_div(vals.deep_view(), dots@) is None,
        },
{
    let ghost vs = vals.deep_view();
    let ghost ds = dots@;
    let mut acc = Dec { mant: vals[0].mant, scale: vals[0].scale };
    let mut promoted = dots[0];
    let n = vals.len();
    let mut i: usize = 1;
    proof {
        assert(vs.take(1)[0] == vs[0]);
        assert(ds.take(1)[0] == ds[0]);
    }
    while i < n
        invariant
            1 <= i <= n,
            n == vals.len(),
            n == dots.len(),
            vs == vals.deep_view(),
            ds == dots@,
            forall|j: int| 0 <= j < n ==> (#[trigger] vs[j]).scale <= SCALE_CAP,
            acc@.scale <= SCALE_CAP,
            spec_fold_div(vs.take(i as int), ds.take(i as int)) == Some((acc@, promoted)),
        decreases n - i,
    {
        proof {
            assert(vs.take(i + 1).drop_last() =~= vs.take(i as int));
            assert(vs.take(i + 1).last() == vs[i as int]);
            assert(ds.take(i + 1).drop_last() =~= ds.take(i as int));
            assert(ds.take(i + 1).last() == ds[i as int]);
        }
        promoted = promoted || dots[i];
        let step = if promoted {
            crate::num::dec_div(&acc, &vals[i])
        } else {
            crate::num::int_div(&acc, &vals[i])
        };
        acc = match step {
            Some(a) => a,
            None => {
                proof {
                    lemma_fold_div_none_extends(vs, ds, i + 1);
                }
                return None;
            },
        };
        i = i + 1;
    }
    proof {
        assert(vs.take(n as int) =~= vs);
        assert(ds.take(n as int) =~= ds);
    }
    Some(acc)
}

/// The sum of all children, or an error.
fn add(mut ast: Ast) -> (r: EvalResult<Ast>)
    ensures
        match spec_add_tree(ast@) {
            Some(v) => r is Push && r->Push_0@ == spec_number_node(v),
            None => r is Error,
        },
{
    if ast.child_count() == 0 {
        return EvalResult::Error;
    }
    let children = ast.dump_children();
    let parsed = match parse_vals(&children) {
        Some(p) => p,
        None => {
            return EvalResult::Error;
        },
    };
    let total = match fold_add(&parsed.0) {
        Some(v) => v,
        None => {
            return EvalResult::Error;
        },
    };
    proof {
        lemma_vals_elements(children.deep_view());
        lemma_fold_in_range_add(parsed.0.deep_view());
    }
    let text = crate::num::render_dec(&total);
    ast.node_val = Some(crate::token::Token::new_preset(text, Type::Number));
    proof {
        assert(ast@.children =~= Seq::<AstV>::empty());
    }
    EvalResult::Push(ast)
}

/// The left-fold difference of the children, or an error.
fn sub(mut ast: Ast) -> (r: EvalResult<Ast>)
    ensures
        match spec_sub_tree(ast@) {
            Some(v) => r is Push && r->Push_0@ == spec_number_node(v),
            None => r is Error,
        },
{
    if ast.child_count() == 0 {
        return EvalResult::Error;
    }
    let children = ast.dump_children();
    let parsed = match parse_vals(&children) {
        Some(p) => p,
        None => {
            return EvalResult::Error;
        },
    };
    proof {
        lemma_vals_elements(children.deep_view());
    }
    let total = match fold_sub(&parsed.0) {
        Some(v) => v,
        None => {
            return EvalResult::Error;
        },
    };
    proof {
        lemma_fold_in_range_sub(parsed.0.deep_view());
    }
    let text = crate::num::render_dec(&total);
    ast.node_val = Some(crate::token::Token::new_preset(text, Type::Number));
    proof {
        assert(ast@.children =~= Seq::<AstV>::empty());
    }
    EvalResult::Push(ast)
}

/// The product of all children, or an error.
fn mult(mut ast: Ast) -> (r: EvalResult<Ast>)
    ensures
        match spec_mul_tree(ast@) {
            Some(v) => r is Push && r->Push_0@ == spec_number_node(v),
            None => r is Error,
        },
{
    if ast.child_count() == 0 {
        return EvalResult::Error;
    }
    let children = ast.dump_children();
    let parsed = match parse_vals(&children) {
        Some(p) => p,
        None => {
            return EvalResult::Error;
        },
    };
    proof {
        lemma_vals_elements(children.deep_view());
    }
    let total = match fold_mul(&parsed.0) {
        Some(v) => v,
        None => {
            return EvalResult::Error;
        },
    };
    proof {
        lemma_fold_in_range_mul(parsed.0.deep_view());
    }
    let text = crate::num::render_dec(&total);
    ast.node_val = Some(crate::token::Token::new_preset(text, Type::Number));
    proof {
        assert(ast@.children =~= Seq::<AstV>::empty());
    }
    EvalResult::Push(ast)
}

/// The left-fold quotient of the children, or an error (among them a
/// zero divisor, which is never a silent or undefined outcome).
fn div(mut ast: Ast) -> (r: EvalResult<Ast>)
    ensures
        match spec_div_tree(ast@) {
            Some(v) => r is Push && r->Push_0@ == spec_number_node(v),
            None => r is Error,
        },
{
    if ast.child_count() == 0 {
        return EvalResult::Error;
    }
    let children = ast.dump_children();
    let parsed = match parse_vals(&children) {
        Some(p) => p,
        None => {
            return EvalResult::Error;
        },
    };
    proof {
        lemma_vals_elements(children.deep_view());
    }
    let total = match fold_div(&parsed.0, &parsed.1) {
        Some(v) => v,
        None => {
            return EvalResult::Error;
        },
    };
    proof {
        lemma_fold_in_range_div(parsed.0.deep_view(), parsed.1@);
    }
    let text = crate::num::render_dec(&total);
    ast.node_val = Some(crate::token::Token::new_preset(text, Type::Number));
    proof {
        assert(ast@.children =~= Seq::<AstV>::empty());
    }
    EvalResult::Push(ast)
}

/// A finished fold's value is in the machine range.
proof fn lemma_fold_in_range_add(vs: Seq<DecV>)
    requires
        spec_fold_add(vs) is Some,
    ensures
        mant_in_range(spec_fold_add(vs)->Some_0.mant),
    decreases vs.len(),
{
    if vs.len() > 0 {
        lemma_fold_in_range_add(vs.drop_last());
    }
}

proof fn lemma_fold_in_range_mul(vs: Seq<DecV>)
    requires
        spec_fold_mul(vs) is Some,
    ensures
        mant_in_range(spec_fold_mul(vs)->Some_0.mant),
    decreases vs.len(),
{
    if vs.len() > 0 {
        lemma_fold_in_range_mul(vs.drop_last());
    }
}

proof fn lemma_fold_in_range_sub(vs: Seq<DecV>)
    requires
        spec_fold_sub(vs) is Some,
        forall|i: int| 0 <= i < vs.len() ==> mant_in_range((#[trigger] vs[i]).mant),
    ensures
        mant_in_range(spec_fold_sub(vs)->Some_0.mant),
    decreases vs.len(),
{
    if vs.len() > 1 {
        lemma_fold_in_range_sub(vs.drop_last());
    }
}

proof fn lemma_fold_in_range_div(vs: Seq<DecV>, dots: Seq<bool>)
    requires
        spec_fold_div(vs, dots) is Some,
        forall|i: int| 0 <= i < vs.len() ==> mant_in_range((#[trigger] vs[i]).mant),
    ensures
        mant_in_range(spec_fold_div(vs, dots)->Some_0.0.mant),
    decreases vs.len(),
{
    if vs.len() > 1 {
        lemma_fold_in_range_div(vs.drop_last(), dots.drop_last());
    }
}

/// What the builtin pipeline owes for a fully expanded call: replace it
/// with a node, drop it, or abort.  It never asks for reinsertion.
pub enum BuiltinOutcome {
    /// Replace the call with this finished node.
    Push(AstV),
    /// The call contributes nothing beyond any output written.
    Ignore,
    /// Malformed call: abort evaluation.
    Error,
}

/// The outcome the dispatch owes for the call `t`, and the text it
/// appends to the output.  An unrecognized operator name is ignored
/// outright, with no output; a group that has collapsed to one literal
/// yields that literal (how a substituted call hands its value back).
pub open spec fn spec_builtin(t: AstV) -> (BuiltinOutcome, Seq<char>) {
    if t.children.len() == 0 {
        (BuiltinOutcome::Error, Seq::empty())
    } else if t.children[0].node is None {
        (BuiltinOutcome::Error, Seq::empty())
    } else {
        let lex = t.children[0].node->Some_0.lexed;
        let rest = AstV { node: t.node, children: t.children.skip(1) };
        if lex == "print"@ {
            match spec_texts(rest.children) {
                Some(ts) => (BuiltinOutcome::Ignore, spec_join(ts, false)),
                None => (BuiltinOutcome::Error, Seq::empty()),
            }
        } else if lex == "println"@ {
            match spec_texts(rest.children) {
                Some(ts) => (BuiltinOutcome::Ignore, spec_join(ts, true)),
                None => (BuiltinOutcome::Error, Seq::empty()),
            }
        } else if lex == "add"@ {
            match spec_add_tree(rest) {
                Some(v) => (BuiltinOutcome::Push(spec_number_node(v)), Seq::empty()),
                None => (BuiltinOutcome::Error, Seq::empty()),
            }
        } else if lex == "sub"@ {
            match spec_sub_tree(rest) {
                Some(v) => (BuiltinOutcome::Push(spec_number_node(v)), Seq::empty()),
                None => (BuiltinOutcome::Error, Seq::empty()),
            }
        } else if lex == "mult"@ {
            match spec_mul_tree(rest) {
                Some(v) => (BuiltinOutcome::Push(spec_number_node(v)), Seq::empty()),
                None => (BuiltinOutcome::Error, Seq::empty()),
            }
        } else if lex == "div"@ {
            match spec_div_tree(rest) {
                Some(v) => (BuiltinOutcome::Push(spec_number_node(v)), Seq::empty()),
                None => (BuiltinOutcome::Error, Seq::empty()),
            }
        } else if (t.children[0].node->Some_0.tok_type is Number || t.children[0].node->Some_0.tok_type
            is StrType) && t.children.len() == 1 {
            (BuiltinOutcome::Push(t.children[0]), Seq::empty())
        } else {
            (BuiltinOutcome::Ignore, Seq::empty())
        }
    }
}

/// An operator name matching no builtin contributes nothing: no output,
/// no replacement, no halt asked for.
pub proof fn lemma_unknown_operator_is_ignored(t: AstV)
    requires
        t.children.len() > 0,
        t.children[0].node is Some,
        t.children[0].node->Some_0.tok_type is Func,
        !spec_is_builtin_name(t.children[0].node->Some_0.lexed),
    ensures
        spec_builtin(t).0 is Ignore,
        spec_builtin(t).1 == Seq::<char>::empty(),
{
}

/// Route a fully expanded call to its builtin by operator name.  An
/// unrecognized operator name is ignored outright, so an unknown
/// operator never writes output and never halts evaluation.  A group
/// that has collapsed to one literal yields that literal: this is how a
/// substituted function call hands its body's value back.
pub fn evaluate_builtin(mut ast: Ast, out: &mut String) -> (r: EvalResult<Ast>)
    ensures
        final(out)@ == old(out)@ + spec_builtin(ast@).1,
        spec_builtin(ast@).0 is Error ==> r is Error,
        spec_builtin(ast@).0 is Ignore ==> r is Ignore,
        spec_builtin(ast@).0 is Push ==> r is Push && r->Push_0@ == spec_builtin(ast@).0->Push_0,
        !(r is Insert),
{
    let ghost t = ast@;
    match ast.get_child(0) {
        Some(child) => {
            let node = match &child.node_val {
                Some(node) => node,
                None => {
                    return EvalResult::Error;
                },
            };
            let lexed = node.get_lexed();
            proof {
                assert(ast@.children =~= t.children.skip(1));
            }
            if str_eq(lexed.as_str(), "print") {
                print(ast, out)
            } else if str_eq(lexed.as_str(), "println") {
                println(ast, out)
            } else if str_eq(lexed.as_str(), "add") {
                crate::builtins::add(ast)
            } else if str_eq(lexed.as_str(), "sub") {
                crate::builtins::sub(ast)
            } else if str_eq(lexed.as_str(), "mult") {
                mult(ast)
            } else if str_eq(lexed.as_str(), "div") {
                div(ast)
            } else {
                let is_literal = matches!(node.tok_type, Type::Number | Type::StrType);
                if is_literal && ast.child_count() == 0 {
                    EvalResult::Push(child)
                } else {
                    EvalResult::Ignore
                }
            }
        },
        None => EvalResult::Error,
    }
}


/// `add` over two arguments does not depend on their order, as long as
/// neither argument carries more fractional digits than one machine word
/// can rescale (thirty-eight).
pub proof fn lemma_add_two_args_commute(node: Option<TokenV>, x: AstV, y: AstV)
    requires
        spec_child_num(x) is Some ==> spec_child_num(x)->Some_0.scale <= 38,
        spec_child_num(y) is Some ==> spec_child_num(y)->Some_0.scale <= 38,
    ensures
        spec_add_tree(AstV { node, children: seq![x, y] }) == spec_add_tree(
            AstV { node, children: seq![y, x] },
        ),
{
    reveal_with_fuel(spec_vals, 4);
    reveal_with_fuel(spec_fold_add, 4);
    lemma_pair_facts(x, y);
    lemma_pair_facts(y, x);
    match (spec_child_num(x), spec_child_num(y)) {
        (Some(vx), Some(vy)) => {
            lemma_zero_add(vx);
            lemma_zero_add(vy);
            crate::num::lemma_dec_add_comm(vx, vy);
            assert(spec_vals(seq![x, y])->Some_0 =~= seq![vx, vy]);
            assert(spec_vals(seq![y, x])->Some_0 =~= seq![vy, vx]);
            assert(seq![vx, vy].drop_last() =~= seq![vx]);
            assert(seq![vy, vx].drop_last() =~= seq![vy]);
            assert(seq![vx].drop_last() =~= Seq::<DecV>::empty());
            assert(seq![vy].drop_last() =~= Seq::<DecV>::empty());
        },
        _ => {},
    }
}

/// `mult` over two arguments does not depend on their order.
pub proof fn lemma_mul_two_args_commute(node: Option<TokenV>, x: AstV, y: AstV)
    requires
        spec_child_num(x) is Some ==> spec_child_num(x)->Some_0.scale <= SCALE_CAP,
        spec_child_num(y) is Some ==> spec_child_num(y)->Some_0.scale <= SCALE_CAP,
    ensures
        spec_mul_tree(AstV { node, children: seq![x, y] }) == spec_mul_tree(
            AstV { node, children: seq![y, x] },
        ),
{
    reveal_with_fuel(spec_vals, 4);
    reveal_with_fuel(spec_fold_mul, 4);
    lemma_pair_facts(x, y);
    lemma_pair_facts(y, x);
    match (spec_child_num(x), spec_child_num(y)) {
        (Some(vx), Some(vy)) => {
            lemma_one_mul(vx);
            lemma_one_mul(vy);
            crate::num::lemma_dec_mul_comm(vx, vy);
            assert(spec_vals(seq![x, y])->Some_0 =~= seq![vx, vy]);
            assert(spec_vals(seq![y, x])->Some_0 =~= seq![vy, vx]);
            assert(seq![vx, vy].drop_last() =~= seq![vx]);
            assert(seq![vy, vx].drop_last() =~= seq![vy]);
            assert(seq![vx].drop_last() =~= Seq::<DecV>::empty());
            assert(seq![vy].drop_last() =~= Seq::<DecV>::empty());
        },
        _ => {},
    }
}

/// The sequence shapes of a two-child list.
proof fn lemma_pair_facts(x: AstV, y: AstV)
    ensures
        seq![x, y].drop_last() =~= seq![x],
        seq![x].drop_last() =~= Seq::<AstV>::empty(),
        seq![x, y].last() == y,
        seq![x].last() == x,
        seq![x, y][0] == x,
        seq![x, y][1] == y,
{
}

/// Adding a value to the zero total gives that value back, when its
/// scale can be rescaled onto one machine word.
proof fn lemma_zero_add(v: DecV)
    requires
        mant_in_range(v.mant),
        v.scale <= 38,
    ensures
        spec_dec_add(DecV { mant: 0, scale: 0 }, v) == Some(v),
{
    crate::num::lemma_pow10_38();
    crate::num::lemma_pow10_mono(v.scale, 38);
    crate::num::lemma_pow10_pos(v.scale);
    assert(0 * crate::num::pow10(v.scale) == 0) by (nonlinear_arith);
    assert(v.mant * crate::num::pow10(0) == v.mant);
}

/// Multiplying the unit total by a value gives that value back.
proof fn lemma_one_mul(v: DecV)
    requires
        mant_in_range(v.mant),
        v.scale <= SCALE_CAP,
    ensures
        spec_dec_mul(DecV { mant: 1, scale: 0 }, v) == Some(v),
{
    assert(1 * v.mant == v.mant);
}

/// An `add` whose arguments all lack a decimal point stays integral: the
/// total it leaves carries no fractional digit.
pub proof fn lemma_add_stays_integral(t: AstV)
    requires
        forall|i: int|
            0 <= i < t.children.len() ==> (#[trigger] t.children[i]).node is Some
                && !spec_numeral(t.children[i].node->Some_0.lexed).dot,
        spec_add_tree(t) is Some,
    ensures
        spec_add_tree(t)->Some_0.scale == 0,
{
    lemma_vals_scales_zero(t.children);
    lemma_fold_add_scale_zero(spec_vals(t.children)->Some_0);
}

/// Values of dot-free numerals all have scale zero.
proof fn lemma_vals_scales_zero(cs: Seq<AstV>)
    requires
        spec_vals(cs) is Some,
        forall|i: int|
            0 <= i < cs.len() ==> (#[trigger] cs[i]).node is Some && !spec_numeral(
                cs[i].node->Some_0.lexed,
            ).dot,
    ensures
        forall|i: int|
            0 <= i < spec_vals(cs)->Some_0.len() ==> (#[trigger] spec_vals(cs)->Some_0[i]).scale
                == 0,
        spec_vals(cs)->Some_0.len() == cs.len(),
    decreases cs.len(),
{
    if cs.len() > 0 {
        lemma_vals_scales_zero(cs.drop_last());
        crate::num::lemma_no_dot_scale_zero(cs.last().node->Some_0.lexed);
    }
}

/// A fold of scale-zero values keeps scale zero.
proof fn lemma_fold_add_scale_zero(vs: Seq<DecV>)
    requires
        spec_fold_add(vs) is Some,
        forall|i: int| 0 <= i < vs.len() ==> (#[trigger] vs[i]).scale == 0,
    ensures
        spec_fold_add(vs)->Some_0.scale == 0,
    decreases vs.len(),
{
    if vs.len() > 0 {
        lemma_fold_add_scale_zero(vs.drop_last());
    }
}


/// Division by zero is an error, never a silent or undefined outcome: a
/// `div` whose divisor denotes zero leaves no value, so the dispatch
/// contract makes it abort the run.
pub proof fn lemma_div_by_zero_is_error(node: Option<TokenV>, x: AstV, y: AstV)
    requires
        spec_child_num(y) is Some,
        spec_child_num(y)->Some_0.mant == 0,
    ensures
        spec_div_tree(AstV { node, children: seq![x, y] }) is None,
{
    reveal_with_fuel(spec_vals, 4);
    reveal_with_fuel(spec_fold_div, 4);
    lemma_pair_facts(x, y);
    match spec_child_num(x) {
        Some(vx) => {
            let vy = spec_child_num(y)->Some_0;
            assert(spec_vals(seq![x, y]) is Some);
            let vs = spec_vals(seq![x, y])->Some_0;
            assert(vs =~= seq![vx, vy]);
            let ds = spec_dots(seq![x, y]);
            assert(vs.drop_last() =~= seq![vx]);
            assert(ds.drop_last() =~= seq![spec_dot(x)]);
        },
        None => {},
    }
}


/// The mathematical folding step of `add`, as a function value.
pub open spec fn add_total_fn() -> spec_fn(DecV, DecV) -> DecV {
    |acc: DecV, x: DecV| crate::num::dec_add_total(acc, x)
}

/// The mathematical folding step of `mult`, as a function value.
pub open spec fn mul_total_fn() -> spec_fn(DecV, DecV) -> DecV {
    |acc: DecV, x: DecV| crate::num::dec_mul_total(acc, x)
}

/// The machine fold of `add`, where it exists, is the mathematical left
/// fold from zero.
proof fn lemma_fold_add_is_total(vs: Seq<DecV>)
    requires
        spec_fold_add(vs) is Some,
    ensures
        spec_fold_add(vs)->Some_0 == vs.fold_left(DecV { mant: 0, scale: 0 }, add_total_fn()),
    decreases vs.len(),
{
    if vs.len() > 0 {
        lemma_fold_add_is_total(vs.drop_last());
        crate::num::lemma_dec_add_is_total(spec_fold_add(vs.drop_last())->Some_0, vs.last());
    }
}

/// The machine fold of `mult`, where it exists, is the mathematical left
/// fold from one.
proof fn lemma_fold_mul_is_total(vs: Seq<DecV>)
    requires
        spec_fold_mul(vs) is Some,
    ensures
        spec_fold_mul(vs)->Some_0 == vs.fold_left(DecV { mant: 1, scale: 0 }, mul_total_fn()),
    decreases vs.len(),
{
    if vs.len() > 0 {
        lemma_fold_mul_is_total(vs.drop_last());
        crate::num::lemma_dec_mul_is_total(spec_fold_mul(vs.drop_last())->Some_0, vs.last());
    }
}

/// The sum does not depend on the order of its operands: two value lists
/// that are rearrangements of each other, both folding within the
/// machine range, fold to the same total.  Out-of-range inputs are left
/// out: with them one order can leave the machine range at an
/// intermediate step where the other does not.
pub proof fn lemma_fold_add_permutation(vs1: Seq<DecV>, vs2: Seq<DecV>)
    requires
        vs1.to_multiset() == vs2.to_multiset(),
        spec_fold_add(vs1) is Some,
        spec_fold_add(vs2) is Some,
    ensures
        spec_fold_add(vs1) == spec_fold_add(vs2),
{
    lemma_fold_add_is_total(vs1);
    lemma_fold_add_is_total(vs2);
    assert(vstd::seq_lib::commutative_foldl(add_total_fn())) by {
        assert forall|x: DecV, y: DecV, v: DecV|
            #[trigger] add_total_fn()(add_total_fn()(v, x), y) == add_total_fn()(
                add_total_fn()(v, y),
                x,
            ) by {
            crate::num::lemma_dec_add_total_swap(v, x, y);
        }
    }
    vstd::seq_lib::lemma_fold_left_permutation(vs1, vs2, add_total_fn(), DecV { mant: 0, scale: 0 });
}

/// The product does not depend on the order of its operands, under the
/// same machine-range proviso as the sum.
pub proof fn lemma_fold_mul_permutation(vs1: Seq<DecV>, vs2: Seq<DecV>)
    requires
        vs1.to_multiset() == vs2.to_multiset(),
        spec_fold_mul(vs1) is Some,
        spec_fold_mul(vs2) is Some,
    ensures
        spec_fold_mul(vs1) == spec_fold_mul(vs2),
{
    lemma_fold_mul_is_total(vs1);
    lemma_fold_mul_is_total(vs2);
    assert(vstd::seq_lib::commutative_foldl(mul_total_fn())) by {
        assert forall|x: DecV, y: DecV, v: DecV|
            #[trigger] mul_total_fn()(mul_total_fn()(v, x), y) == mul_total_fn()(
                mul_total_fn()(v, y),
                x,
            ) by {
            crate::num::lemma_dec_mul_total_swap(v, x, y);
        }
    }
    vstd::seq_lib::lemma_fold_left_permutation(vs1, vs2, mul_total_fn(), DecV { mant: 1, scale: 0 });
}

/// An `add` call leaves the same value — and so the same result text —
/// when its operands are rearranged, as long as both arrangements stay
/// in the machine range.
pub proof fn lemma_add_argument_order(a: AstV, b: AstV)
    requires
        spec_vals(a.children) is Some,
        spec_vals(b.children) is Some,
        spec_vals(a.children)->Some_0.to_multiset() == spec_vals(b.children)->Some_0.to_multiset(),
        spec_add_tree(a) is Some,
        spec_add_tree(b) is Some,
    ensures
        spec_add_tree(a) == spec_add_tree(b),
        spec_number_node(spec_add_tree(a)->Some_0) == spec_number_node(spec_add_tree(b)->Some_0),
{
    lemma_fold_add_permutation(spec_vals(a.children)->Some_0, spec_vals(b.children)->Some_0);
}

/// A `mult` call leaves the same value when its operands are rearranged,
/// under the same machine-range proviso.
pub proof fn lemma_mul_argument_order(a: AstV, b: AstV)
    requires
        spec_vals(a.children) is Some,
        spec_vals(b.children) is Some,
        spec_vals(a.children)->Some_0.to_multiset() == spec_vals(b.children)->Some_0.to_multiset(),
        spec_mul_tree(a) is Some,
        spec_mul_tree(b) is Some,
    ensures
        spec_mul_tree(a) == spec_mul_tree(b),
        spec_number_node(spec_mul_tree(a)->Some_0) == spec_number_node(spec_mul_tree(b)->Some_0),
{
    lemma_fold_mul_permutation(spec_vals(a.children)->Some_0, spec_vals(b.children)->Some_0);
}

} // verus!
