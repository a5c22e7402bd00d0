//! The evaluator: an explicit-stack, depth-first, left-to-right tree
//! walker that rewrites the parsed tree in place, orchestrating scope
//! push and pop, function-call expansion by substitution, and builtin
//! dispatch.  The work stack of (subtree, index-in-parent, opened-frame)
//! entries is the whole suspended-evaluation state: no native recursion.

use vstd::prelude::*;

use crate::ast::{Ast, AstTrait, AstV};
use crate::builtins;
use crate::scope::{pop_frame, push_frame, scope_lookup, scope_wf, spec_pop_frame, Func, Scope};
use crate::strutil::push_char;
use crate::token::{TokenTrait, Type};

verus! {

/// What an expansion attempt found at the top of the work stack.
pub enum Expansion {
    /// The call was rewritten by substitution: process it again.
    Expanded,
    /// Not a resolvable call: hand the node to the dispatch pipelines.
    NotCall,
    /// A malformed call shape (among them too few arguments): abort.
    Failed,
}

/// The evaluator state: the tree being consumed, the work stack, the
/// finished flag, the aborted flag (set when a dispatch error or a
/// malformed shape ends the run early), and the text the output
/// builtins have written.
pub struct Eval {
    pub ast: Ast,
    pub stack: Vec<(Ast, usize, bool)>,
    pub evaluated: bool,
    pub aborted: bool,
    pub output: String,
}

/// How the evaluator is driven.
pub trait EvalTrait {
    /// Run until the tree is consumed, an error aborts the run, or the
    /// step budget of the machine is spent.
    fn eval(&mut self);

    /// Whether evaluation has finished (the aborted flag tells a run
    /// that ended on an error from one that consumed its tree).
    fn is_evaluated(&self) -> bool;
}

/// Serializing a tree for diagnostics.
pub trait PrettyPrint {
    /// The tree, one token per line, indented by nesting depth; the tree
    /// is consumed.
    fn pretty_print(&mut self) -> String;

    /// Append one indentation unit per depth step.
    fn push_whitespace(&self, pretty: &mut String, depth: usize);
}

/// Indentation: one tab per depth unit.
pub open spec fn spec_indent(d: nat) -> Seq<char>
    decreases d,
{
    if d == 0 {
        Seq::empty()
    } else {
        spec_indent((d - 1) as nat).push('\t')
    }
}

/// The opening line a node contributes before its children: only the
/// bracketed kinds open.
pub open spec fn spec_open_line(t: AstV, d: nat) -> Seq<char> {
    if t.node is Some && t.node->Some_0.tok_type is Oparen {
        spec_indent(d).push('(').push('\n')
    } else if t.node is Some && t.node->Some_0.tok_type is OpenList {
        spec_indent(d).push('<').push('\n')
    } else {
        Seq::empty()
    }
}

/// The closing line a node contributes after its children: the matching
/// bracket for the bracketed kinds, the lexeme otherwise.  A lexeme line
/// ends with a blank before its newline, so that the printed text lexes
/// again (a bare newline may not stand inside an unterminated symbol).
pub open spec fn spec_close_line(t: AstV, d: nat) -> Seq<char> {
    if t.node is Some && t.node->Some_0.tok_type is Oparen {
        spec_indent(d).push(')').push('\n')
    } else if t.node is Some && t.node->Some_0.tok_type is OpenList {
        spec_indent(d).push('>').push('\n')
    } else if t.node is Some {
        spec_indent(d).add(t.node->Some_0.lexed).push(' ').push('\n')
    } else {
        seq!['\n']
    }
}

/// A node's printed form at depth `d`.
pub open spec fn spec_pretty(t: AstV, d: nat) -> Seq<char>
    decreases t,
{
    spec_open_line(t, d).add(spec_pretty_kids(t.children, d + 1)).add(spec_close_line(t, d))
}

/// A child list's printed form, in order.
pub open spec fn spec_pretty_kids(cs: Seq<AstV>, d: nat) -> Seq<char>
    decreases cs,
{
    if cs.len() == 0 {
        Seq::empty()
    } else {
        spec_pretty(cs[0], d).add(spec_pretty_kids(cs.skip(1), d))
    }
}

impl PrettyPrint for Eval {
    fn push_whitespace(&self, pretty: &mut String, depth: usize)
        ensures
            final(pretty)@ == old(pretty)@ + spec_indent(depth as nat),
    {
        let mut i: usize = 0;
        while i < depth
            invariant
                0 <= i <= depth,
                pretty@ == old(pretty)@ + spec_indent(i as nat),
            decreases depth - i,
        {
            push_char(pretty, '\t');
            i = i + 1;
        }
    }

    fn pretty_print(&mut self) -> (r: String)
        ensures
            r@ == spec_pretty_kids(old(self).ast@.children, 0),
            final(self).ast@ == (AstV { node: old(self).ast@.node, children: Seq::empty() }),
            final(self).stack == old(self).stack,
            final(self).evaluated == old(self).evaluated,
            final(self).aborted == old(self).aborted,
            final(self).output == old(self).output,
    {
        let mut pretty = String::new();
        let indent0 = String::new();
        proof {
            assert(indent0@ =~= spec_indent(0));
        }
        let mut children = self.ast.dump_children();
        let ghost cs = children.deep_view();
        let mut i: usize = 0;
        let n = children.len();
        while i < n
            invariant
                0 <= i <= n,
                n == children.len(),
                cs == children.deep_view(),
                indent0@ == spec_indent(0),
                pretty@ == spec_pretty_kids_upto_d(cs, i as int, 0),
            decreases n - i,
        {
            pretty_node(&children[i], &indent0, Ghost(0), &mut pretty);
            i = i + 1;
        }
        proof {
            lemma_pretty_kids_all_d(cs, 0);
        }
        pretty
    }
}

/// Printing a child list is printing all but the last, then the last.
proof fn lemma_pretty_kids_snoc(cs: Seq<AstV>, d: nat)
    requires
        cs.len() > 0,
    ensures
        spec_pretty_kids(cs, d) == spec_pretty_kids(cs.drop_last(), d).add(
            spec_pretty(cs.last(), d),
        ),
    decreases cs.len(),
{
    if cs.len() == 1 {
        assert(cs.skip(1) =~= Seq::<AstV>::empty());
        assert(cs.drop_last() =~= Seq::<AstV>::empty());
        assert(spec_pretty_kids(cs.drop_last(), d) =~= Seq::<char>::empty());
        assert(spec_pretty_kids(cs, d) =~= spec_pretty(cs[0], d));
        assert(Seq::<char>::empty().add(spec_pretty(cs.last(), d)) =~= spec_pretty(cs.last(), d));
    } else {
        lemma_pretty_kids_snoc(cs.skip(1), d);
        assert(cs.skip(1).drop_last() =~= cs.drop_last().skip(1));
        assert(cs.skip(1).last() == cs.last());
        assert(cs.drop_last()[0] == cs[0]);
        assert(spec_pretty(cs[0], d).add(
            spec_pretty_kids(cs.drop_last().skip(1), d).add(spec_pretty(cs.last(), d)),
        ) =~= spec_pretty(cs[0], d).add(spec_pretty_kids(cs.drop_last().skip(1), d)).add(
            spec_pretty(cs.last(), d),
        ));
    }
}

/// Print one node, following `spec_pretty`.
fn pretty_node(node: &Ast, indent: &String, Ghost(d): Ghost<nat>, out: &mut String)
    requires
        indent@ == spec_indent(d),
    ensures
        final(out)@ == old(out)@ + spec_pretty(node@, d),
    decreases *node,
{
    let ghost t = node@;
    match &node.node_val {
        Some(tok) => {
            if matches!(tok.tok_type, Type::Oparen) {
                out.append(indent.as_str());
                push_char(out, '(');
                push_char(out, '\n');
            } else if matches!(tok.tok_type, Type::OpenList) {
                out.append(indent.as_str());
                push_char(out, '<');
                push_char(out, '\n');
            }
        },
        None => {},
    }
    proof {
        assert(out@ =~= old(out)@ + spec_open_line(t, d));
    }
    let mut child_indent = indent.clone();
    push_char(&mut child_indent, '\t');
    proof {
        assert(child_indent@ == spec_indent(d + 1));
    }
    let n = node.child_nodes.len();
    let mut i: usize = 0;
    #[verifier::loop_isolation(false)]
    while i < n
        invariant
            0 <= i <= n,
            out@ == old(out)@ + spec_open_line(t, d) + spec_pretty_kids_upto_d(
                t.children,
                i as int,
                (d + 1) as nat,
            ),
        decreases n - i,
    {
        pretty_node(&node.child_nodes[i], &child_indent, Ghost((d + 1) as nat), out);
        proof {
            assert(t.children[i as int] == node.child_nodes[i as int]@);
        }
        i = i + 1;
    }
    proof {
        lemma_pretty_kids_all_d(t.children, (d + 1) as nat);
    }
    match &node.node_val {
        Some(tok) => {
            if matches!(tok.tok_type, Type::Oparen) {
                out.append(indent.as_str());
                push_char(out, ')');
                push_char(out, '\n');
            } else if matches!(tok.tok_type, Type::OpenList) {
                out.append(indent.as_str());
                push_char(out, '>');
                push_char(out, '\n');
            } else {
                out.append(indent.as_str());
                let text = tok.get_lexed();
                out.append(text.as_str());
                push_char(out, ' ');
                push_char(out, '\n');
            }
        },
        None => {
            push_char(out, '\n');
        },
    }
    proof {
        assert(out@ =~= old(out)@ + spec_pretty(t, d));
    }
}

/// The printed form of the first `i` children at depth `d`.
pub open spec fn spec_pretty_kids_upto_d(cs: Seq<AstV>, i: int, d: nat) -> Seq<char>
    decreases i,
{
    if i <= 0 {
        Seq::empty()
    } else {
        spec_pretty_kids_upto_d(cs, i - 1, d).add(spec_pretty(cs[i - 1], d))
    }
}

proof fn lemma_pretty_kids_all_d(cs: Seq<AstV>, d: nat)
    ensures
        spec_pretty_kids_upto_d(cs, cs.len() as int, d) == spec_pretty_kids(cs, d),
    decreases cs.len(),
{
    if cs.len() > 0 {
        lemma_pretty_kids_all_d(cs.drop_last(), d);
        lemma_pretty_kids_snoc(cs, d);
        lemma_pretty_kids_upto_d_prefix(cs, cs.len() - 1, d);
    }
}

proof fn lemma_pretty_kids_upto_d_prefix(cs: Seq<AstV>, i: int, d: nat)
    requires
        0 <= i <= cs.len() - 1,
    ensures
        spec_pretty_kids_upto_d(cs, i, d) == spec_pretty_kids_upto_d(cs.drop_last(), i, d),
    decreases i,
{
    if i > 0 {
        lemma_pretty_kids_upto_d_prefix(cs, i - 1, d);
    }
}

/// Append `depth` tabs.
fn indent(depth: usize, out: &mut String)
    ensures
        final(out)@ == old(out)@ + spec_indent(depth as nat),
{
    let mut i: usize = 0;
    while i < depth
        invariant
            0 <= i <= depth,
            out@ == old(out)@ + spec_indent(i as nat),
        decreases depth - i,
    {
        push_char(out, '\t');
        i = i + 1;
    }
}

impl EvalTrait for Eval {
    /// Drive the walk to the end.  Output is only ever appended (side
    /// effects before an error are kept, never rolled back); a finished
    /// or aborted evaluator is left exactly as it stands; an empty tree
    /// finishes at once; and a run that finishes without aborting has
    /// consumed the whole tree: work stack and root both exhausted.
    fn eval(&mut self)
        ensures
            old(self).output@.is_prefix_of(final(self).output@),
            old(self).evaluated ==> *final(self) == *old(self),
            old(self).aborted ==> final(self).aborted,
            !old(self).aborted ==> (final(self).aborted ==> final(self).evaluated),
            !old(self).evaluated && old(self).stack@.len() == 0 && old(self).ast@.children.len()
                == 0 ==> final(self).evaluated && final(self).aborted == old(self).aborted
                && final(self).output@ == old(self).output@,
            !old(self).evaluated && !old(self).aborted && final(self).evaluated && !final(self).aborted
                ==> final(self).stack@.len() == 0 && final(self).ast@.children.len() == 0,
            ({
                let cs = old(self).ast@.children;
                (!old(self).evaluated && !old(self).aborted && old(self).stack@.len() == 0
                    && cs.len() < 0x4000_0000_0000_0000 && (forall|i: int|
                    0 <= i < cs.len() ==> spec_inert_leaf(#[trigger] cs[i])))
                    ==> final(self).evaluated && !final(self).aborted && final(self).output@
                    == old(self).output@ && final(self).ast@.children.len() == 0
            }),
    {
        let mut scope = Scope::new_root();
        let mut fuel: u64 = 0xffff_ffff_ffff_ffff;
        while !self.evaluated && fuel > 0
            invariant
                scope_wf(scope@),
                old(self).output@.is_prefix_of(self.output@),
                old(self).evaluated ==> *self == *old(self),
                old(self).aborted ==> self.aborted,
                !old(self).aborted ==> (self.aborted ==> self.evaluated),
                !old(self).evaluated && old(self).stack@.len() == 0 && old(self).ast@.children.len()
                    == 0 ==> (self.evaluated && self.aborted == old(self).aborted
                    && self.output@ == old(self).output@) || (fuel == 0xffff_ffff_ffff_ffff
                    && *self == *old(self)),
                !old(self).evaluated && !old(self).aborted && self.evaluated && !self.aborted
                    ==> self.stack@.len() == 0 && self.ast@.children.len() == 0,
                (!old(self).evaluated && !old(self).aborted && old(self).stack@.len() == 0
                    && old(self).ast@.children.len() < 0x4000_0000_0000_0000 && (forall|i: int|
                    0 <= i < old(self).ast@.children.len() ==> spec_inert_leaf(
                        #[trigger] old(self).ast@.children[i],
                    ))) ==> ({
                    &&& !self.aborted
                    &&& self.output@ == old(self).output@
                    &&& forall|i: int|
                        0 <= i < self.ast@.children.len() ==> spec_inert_leaf(
                            #[trigger] self.ast@.children[i],
                        )
                    &&& self.stack@.len() <= 1
                    &&& (self.stack@.len() == 1 ==> spec_inert_leaf(
                        stack_view(self.stack@)[0].0,
                    ) && !stack_view(self.stack@)[0].2 && stack_view(
                        self.stack@,
                    )[0].0.children.len() == 0)
                    &&& (self.evaluated ==> self.stack@.len() == 0 && self.ast@.children.len()
                        == 0)
                    &&& (!self.evaluated ==> 2 * self.ast@.children.len() + self.stack@.len() + (
                    0xffff_ffff_ffff_ffff - fuel) <= 2 * old(self).ast@.children.len())
                }),
            decreases fuel,
        {
            let ghost pre_stack = self.stack@;
            let ghost pre_ast = self.ast@;
            scope = self.eval_node(scope);
            fuel = fuel - 1;
            proof {
                // A program of bare literals steps in one of three ways:
                // finish on an exhausted root, push the next literal, or
                // retire the pushed literal — never aborting, writing, or
                // deepening the stack past one entry.
                if !old(self).evaluated && !old(self).aborted && old(self).stack@.len() == 0
                    && old(self).ast@.children.len() < 0x4000_0000_0000_0000 && (forall|i: int|
                    0 <= i < old(self).ast@.children.len() ==> spec_inert_leaf(
                        #[trigger] old(self).ast@.children[i],
                    )) {
                    if pre_stack.len() == 0 && pre_ast.children.len() == 0 {
                        assert(self.stack@.len() <= 1);
                    } else if pre_stack.len() == 0 {
                        assert(!(pre_ast.children[0].node is Some
                            && pre_ast.children[0].node->Some_0.tok_type is Func));
                        assert(stack_view(self.stack@).len() == self.stack@.len());
                        assert(self.stack@.len() <= 1);
                    } else {
                        assert(pre_stack.len() == 1);
                        assert(pre_stack.last().0@.children.len() == 0);
                        assert(self.stack@.len() <= 1);
                    }
                }
            }
        }
    }

    fn is_evaluated(&self) -> (r: bool)
        ensures
            r == self.evaluated,
    {
        self.evaluated
    }
}

/// A node the walker can only push and then retire: childless, neither
/// an operator token nor a parenthesized group.
pub open spec fn spec_inert_leaf(t: AstV) -> bool {
    t.children.len() == 0 && !(t.node is Some && (t.node->Some_0.tok_type is Func
        || t.node->Some_0.tok_type is Oparen))
}

/// The work stack as mathematics: each entry's tree image, index and
/// opened-frame mark.
pub open spec fn stack_view(s: Seq<(Ast, usize, bool)>) -> Seq<(AstV, int, bool)> {
    Seq::new(s.len(), |i: int| (s[i].0@, s[i].1 as int, s[i].2))
}

/// The substituted call: one synthetic local-binding form for each formal
/// parameter paired with its actual argument, then the function body.
pub open spec fn spec_subst(node: Option<crate::token::TokenV>, params: Seq<AstV>, args: Seq<
    AstV,
>, body: AstV) -> AstV {
    AstV {
        node,
        children: Seq::new(
            params.len(),
            |i: int| builtins::spec_let_ast(params[i].node->Some_0, args[i]),
        ).push(body),
    }
}

/// Whether a parameter list can be injected over the given arguments:
/// every formal carries a token and there are enough actuals.
pub open spec fn spec_can_inject(params: Seq<AstV>, args: Seq<AstV>) -> bool {
    &&& forall|i: int| 0 <= i < params.len() ==> (#[trigger] params[i]).node is Some
    &&& args.len() >= params.len()
}

impl Eval {
    /// An evaluator over the given tree, with an empty work stack and no
    /// output yet.
    pub fn new(ast: Ast) -> (r: Self)
        ensures
            r.ast == ast,
            r.stack@ == Seq::<(Ast, usize, bool)>::empty(),
            !r.evaluated,
            !r.aborted,
            r.output@ == Seq::<char>::empty(),
    {
        Eval { ast, stack: Vec::new(), evaluated: false, aborted: false, output: String::new() }
    }

    /// An evaluator over a tree that must be present.
    pub fn new_option(ast: Option<Ast>) -> (r: Self)
        requires
            ast is Some,
        ensures
            r.ast == ast->Some_0,
            r.stack@ == Seq::<(Ast, usize, bool)>::empty(),
            !r.evaluated,
            !r.aborted,
            r.output@ == Seq::<char>::empty(),
    {
        match ast {
            Some(tree) => Eval {
                ast: tree,
                stack: Vec::new(),
                evaluated: false,
                aborted: false,
                output: String::new(),
            },
            None => unreached(),
        }
    }

    /// End the run early: a dispatch error or a malformed shape was met.
    /// The finished and aborted flags are both set; everything else is
    /// left as it stands (spec: remaining work is discarded, output
    /// already written is kept).
    fn mark_abort(&mut self)
        ensures
            final(self).evaluated,
            final(self).aborted,
            final(self).ast == old(self).ast,
            final(self).stack == old(self).stack,
            final(self).output == old(self).output,
    {
        self.evaluated = true;
        self.aborted = true;
    }

    /// Push a node as the new top work entry; entering a parenthesized
    /// group opens a scope frame, recorded on the entry.
    fn push_entry(&mut self, node: Ast, index: usize, scope: &mut Scope)
        ensures
            ({
                let opens = node@.node is Some && node@.node->Some_0.tok_type is Oparen;
                &&& final(self).stack@ == old(self).stack@.push((node, index, opens))
                &&& (opens ==> final(scope)@ == seq![Seq::<crate::scope::FuncV>::empty()].add(
                    old(scope)@,
                ))
                &&& (!opens ==> final(scope)@ == old(scope)@)
            }),
            scope_wf(old(scope)@) ==> scope_wf(final(scope)@),
            final(self).ast == old(self).ast,
            final(self).evaluated == old(self).evaluated,
            final(self).aborted == old(self).aborted,
            final(self).output == old(self).output,
    {
        let opens = match &node.node_val {
            Some(tok) => matches!(tok.tok_type, Type::Oparen),
            None => false,
        };
        if opens {
            push_frame(scope);
        }
        self.stack.push((node, index, opens));
    }

    /// Retire a work entry's node: close the frame it opened, if any.
    fn retire_entry(&mut self, opened: bool, scope: &mut Scope)
        requires
            scope_wf(old(scope)@),
        ensures
            scope_wf(final(scope)@),
            final(scope)@ == spec_pop_frame(old(scope)@, opened),
            *final(self) == *old(self),
    {
        if opened {
            pop_frame(scope);
        }
    }

    /// Try to expand the call at the top of the work stack: when its
    /// operator child resolves in the scope chain, the node is rewritten
    /// in place by substitution — the operator is consumed, each formal
    /// parameter is paired positionally with its actual argument as a
    /// synthetic local-binding form, and a copy of the function body is
    /// appended.  A function with no parameters replaces the node by a
    /// copy of its body alone.
    fn expand_function(&mut self, scope: &mut Scope) -> (r: Expansion)
        requires
            scope_wf(old(scope)@),
        ensures
            scope_wf(final(scope)@),
            final(scope)@ == old(scope)@,
            final(self).ast == old(self).ast,
            final(self).evaluated == old(self).evaluated,
            final(self).aborted == old(self).aborted,
            final(self).output == old(self).output,
            old(self).stack@.len() == 0 ==> r is NotCall && final(self).stack@ == old(self).stack@,
            old(self).stack@.len() > 0 ==> ({
                let top = old(self).stack@.last();
                let t = top.0@;
                if !(t.children.len() > 0 && t.children[0].node is Some
                    && t.children[0].node->Some_0.tok_type is Func) {
                    r is NotCall && stack_view(final(self).stack@) == stack_view(old(self).stack@)
                } else {
                    let name = t.children[0].node->Some_0.lexed;
                    match scope_lookup(old(scope)@, name) {
                        Option::None => r is NotCall && stack_view(final(self).stack@)
                            == stack_view(old(self).stack@),
                        Option::Some(f) => {
                            if f.params.children.len() == 0 {
                                r is Expanded && stack_view(final(self).stack@) == stack_view(
                                    old(self).stack@,
                                ).update(
                                    old(self).stack@.len() - 1,
                                    (f.body, top.1 as int, top.2),
                                )
                            } else if spec_can_inject(f.params.children, t.children.skip(1)) {
                                r is Expanded && stack_view(final(self).stack@) == stack_view(
                                    old(self).stack@,
                                ).update(
                                    old(self).stack@.len() - 1,
                                    (
                                        spec_subst(
                                            t.node,
                                            f.params.children,
                                            t.children.skip(1),
                                            f.body,
                                        ),
                                        top.1 as int,
                                        top.2,
                                    ),
                                )
                            } else {
                                r is Failed
                            }
                        },
                    }
                }
            }),
    {
        let ghost pre = stack_view(old(self).stack@);
        let mut current = match self.stack.pop() {
            Some(c) => c,
            None => {
                return Expansion::NotCall;
            },
        };
        let ghost topt = current.0@;
        let child = match current.0.get_child(0) {
            Some(c) => c,
            None => {
                self.stack.push(current);
                proof {
                    assert(stack_view(self.stack@) =~= pre);
                }
                return Expansion::NotCall;
            },
        };
        if !child.is_function() {
            let _ok = current.0.insert_child(child, 0);
            proof {
                assert(current.0@.children =~= topt.children);
                assert(current.0@ =~= topt);
            }
            self.stack.push(current);
            proof {
                assert(stack_view(self.stack@) =~= pre);
            }
            return Expansion::NotCall;
        }
        let name = match &child.node_val {
            Some(tok) => tok.get_lexed(),
            None => {
                return Expansion::Failed;
            },
        };
        let looked = match scope.find_func(&name) {
            Some(func) => Some((func.params.clone(), func.body.clone())),
            None => None,
        };
        match looked {
            Some(fp) => {
                let func = Func::new(name, fp.0, fp.1);
                match self.inject_params(&func, &mut current.0) {
                    Some(true) => {
                        self.stack.push(current);
                        proof {
                            assert(current.0@.children.skip(0) =~= current.0@.children);
                            assert(stack_view(self.stack@) =~= pre.update(
                                pre.len() - 1,
                                (current.0@, pre.last().1, pre.last().2),
                            ));
                        }
                        Expansion::Expanded
                    },
                    Some(false) => {
                        current.0 = func.body;
                        self.stack.push(current);
                        proof {
                            assert(stack_view(self.stack@) =~= pre.update(
                                pre.len() - 1,
                                (current.0@, pre.last().1, pre.last().2),
                            ));
                        }
                        Expansion::Expanded
                    },
                    None => Expansion::Failed,
                }
            },
            None => {
                let _ok = current.0.insert_child(child, 0);
                proof {
                    assert(current.0@.children =~= topt.children);
                    assert(current.0@ =~= topt);
                }
                self.stack.push(current);
                proof {
                    assert(stack_view(self.stack@) =~= pre);
                }
                Expansion::NotCall
            },
        }
    }

    /// Rewrite the call node for a function with parameters: each formal
    /// is paired positionally with an actual argument as a synthetic
    /// local-binding form, and a deep copy of the body comes last.
    /// `Some(false)` when the function has no parameters (the node's
    /// children are consumed either way); `None` on a formal without a
    /// token or on fewer actuals than formals.
    fn inject_params(&mut self, func: &Func, current: &mut Ast) -> (r: Option<bool>)
        ensures
            *final(self) == *old(self),
            func@.params.children.len() == 0 ==> r == Some(false) && final(current)@ == (AstV {
                node: old(current)@.node,
                children: Seq::empty(),
            }),
            func@.params.children.len() > 0 && spec_can_inject(
                func@.params.children,
                old(current)@.children,
            ) ==> r == Some(true) && final(current)@ == spec_subst(
                old(current)@.node,
                func@.params.children,
                old(current)@.children,
                func@.body,
            ),
            func@.params.children.len() > 0 && !spec_can_inject(
                func@.params.children,
                old(current)@.children,
            ) ==> r is None,
    {
        let ghost args = current@.children;
        let mut current_children = current.dump_children();
        let func_children = func.params.clone_children();
        let k = func_children.len();
        if k == 0 {
            proof {
                assert(current@.children =~= Seq::<AstV>::empty());
            }
            return Some(false);
        }
        if current_children.len() < k {
            return None;
        }
        let mut i: usize = 0;
        while i < k
            invariant
                0 <= i <= k,
                k == func_children.len(),
                func_children.deep_view() == func@.params.children,
                current_children.deep_view() == args.skip(i as int),
                args.len() >= k,
                current@.node == old(current)@.node,
                forall|j: int| 0 <= j < i ==> (#[trigger] func@.params.children[j]).node is Some,
                current@.children == Seq::new(
                    i as nat,
                    |j: int|
                        builtins::spec_let_ast(
                            func@.params.children[j].node->Some_0,
                            args[j],
                        ),
                ),
            decreases k - i,
    {
            let formal = &func_children[i];
            let tok = match &formal.node_val {
                Some(tok) => tok.clone(),
                None => {
                    proof {
                        assert(func@.params.children[i as int].node is None);
                    }
                    return None;
                },
            };
            proof {
                assert(current_children.deep_view().len() == current_children@.len());
                assert(args.skip(i as int)[0] == args[i as int]);
                assert(args.skip(i as int).skip(1) =~= args.skip(i + 1));
            }
            let actual = current_children.remove(0);
            proof {
                assert(current_children.deep_view() =~= args.skip(i + 1));
                assert(actual@ == args[i as int]);
            }
            let pair = builtins::generate_let_ast(tok, actual);
            current.push_child(pair);
            proof {
                assert(current@.children =~= Seq::new(
                    (i + 1) as nat,
                    |j: int|
                        builtins::spec_let_ast(
                            func@.params.children[j].node->Some_0,
                            args[j],
                        ),
                ));
            }
            i = i + 1;
        }
        current.push_child(func.body.clone());
        proof {
            assert(current@ =~= spec_subst(
                old(current)@.node,
                func@.params.children,
                args,
                func@.body,
            ));
        }
        Some(true)
    }

    /// Dispatch a fully expanded call to the builtin pipeline and carry
    /// out what it asks: replace the call with the computed node, drop
    /// it, or abort the run.  A call whose operator names no builtin is
    /// dropped without output and never halts the run; the frame the
    /// call's entry opened is closed either way.
    fn handle_builtin(&mut self, parent: (Ast, usize, bool), scope: &mut Scope)
        requires
            scope_wf(old(scope)@),
        ensures
            scope_wf(final(scope)@),
            final(scope)@ == spec_pop_frame(old(scope)@, parent.2),
            final(self).output@ == old(self).output@ + builtins::spec_builtin(parent.0@).1,
            final(self).ast == old(self).ast,
            old(self).evaluated ==> final(self).evaluated,
            old(self).aborted ==> final(self).aborted,
            builtins::spec_builtin(parent.0@).0 is Error ==> final(self).evaluated
                && final(self).aborted && final(self).stack@ == old(self).stack@,
            builtins::spec_builtin(parent.0@).0 is Ignore ==> final(self).evaluated
                == old(self).evaluated && final(self).aborted == old(self).aborted
                && final(self).stack@ == old(self).stack@,
            builtins::spec_builtin(parent.0@).0 is Push ==> final(self).evaluated
                == old(self).evaluated && final(self).aborted == old(self).aborted
                && stack_view(final(self).stack@) == stack_view(old(self).stack@).push(
                (builtins::spec_builtin(parent.0@).0->Push_0, parent.1 as int, false),
            ),
    {
        self.retire_entry(parent.2, scope);
        let ghost out_pre = self.output@;
        let result = builtins::evaluate_builtin(parent.0, &mut self.output);
        proof {
            assert(out_pre.is_prefix_of(self.output@));
        }
        match result {
            builtins::EvalResult::Push(node) => {
                self.stack.push((node, parent.1, false));
            },
            builtins::EvalResult::Error => {
                self.mark_abort();
            },
            builtins::EvalResult::Insert(_) => unreached(),
            builtins::EvalResult::Ignore => {},
        }
    }

    /// Carry out a marker-consuming step of the definition pipeline:
    /// close the frame the consumed sub-form's entry opened, reattach
    /// the remainder into the frame beneath at the recorded index, and
    /// step to the child after it — skipping the reinserted subtree, so
    /// a function body is never evaluated at its definition.  With
    /// nothing beneath, or an index the frame beneath cannot take, the
    /// run aborts.
    fn route_remove(&mut self, parent: (Ast, usize, bool), scope: &mut Scope)
        requires
            scope_wf(old(scope)@),
        ensures
            scope_wf(final(scope)@),
            final(self).ast == old(self).ast,
            final(self).output == old(self).output,
            old(self).evaluated ==> final(self).evaluated,
            old(self).aborted ==> final(self).aborted,
            !old(self).aborted ==> (final(self).aborted ==> final(self).evaluated),
            !old(self).evaluated && !old(self).aborted ==> (final(self).evaluated ==> final(self).aborted),
            old(self).stack@.len() == 0 ==> final(self).evaluated && final(self).aborted,
            ({
                let n = old(self).stack@.len();
                let head = old(self).stack@.last();
                (n >= 1 && parent.1 < usize::MAX && parent.1 <= head.0@.children.len()) ==> ({
                    let merged = head.0@.children.insert(parent.1 as int, parent.0@);
                    &&& final(self).evaluated == old(self).evaluated
                    &&& final(self).aborted == old(self).aborted
                    &&& (merged.len() > parent.1 + 1 ==> ({
                        let next = merged[parent.1 + 1];
                        let opens = next.node is Some && next.node->Some_0.tok_type is Oparen;
                        &&& stack_view(final(self).stack@) == stack_view(
                            old(self).stack@,
                        ).take(n - 1).push(
                            (
                                AstV {
                                    node: head.0@.node,
                                    children: merged.remove(parent.1 + 1),
                                },
                                head.1 as int,
                                head.2,
                            ),
                        ).push((next, parent.1 + 1, opens))
                        &&& final(scope)@ == (if opens {
                            seq![Seq::<crate::scope::FuncV>::empty()].add(
                                spec_pop_frame(old(scope)@, parent.2),
                            )
                        } else {
                            spec_pop_frame(old(scope)@, parent.2)
                        })
                    }))
                    &&& (merged.len() == parent.1 + 1 ==> stack_view(final(self).stack@)
                        == stack_view(old(self).stack@).take(n - 1).push(
                        (AstV { node: head.0@.node, children: merged }, head.1 as int, head.2),
                    ) && final(scope)@ == spec_pop_frame(old(scope)@, parent.2))
                })
            }),
    {
        let ghost pre = stack_view(old(self).stack@);
        self.retire_entry(parent.2, scope);
        match self.stack.pop() {
            Some(mut func_head) => {
                proof {
                    assert(pre[pre.len() - 1] == (func_head.0@, func_head.1 as int, func_head.2));
                    assert(stack_view(self.stack@) =~= pre.take(pre.len() - 1));
                }
                let new_index = match parent.1.checked_add(1) {
                    Some(v) => v,
                    None => {
                        self.mark_abort();
                        return ;
                    },
                };
                let ok = func_head.0.insert_child(parent.0, parent.1);
                if !ok {
                    self.mark_abort();
                    return ;
                }
                match func_head.0.get_child(new_index) {
                    Some(new_ast) => {
                        let ghost hv = (func_head.0@, func_head.1 as int, func_head.2);
                        let ghost nv = new_ast@;
                        self.stack.push(func_head);
                        self.push_entry(new_ast, new_index, scope);
                        proof {
                            assert(stack_view(self.stack@) =~= pre.take(pre.len() - 1).push(
                                hv,
                            ).push(
                                (
                                    nv,
                                    new_index as int,
                                    nv.node is Some && nv.node->Some_0.tok_type is Oparen,
                                ),
                            ));
                        }
                    },
                    None => {
                        let ghost hv = (func_head.0@, func_head.1 as int, func_head.2);
                        self.stack.push(func_head);
                        proof {
                            assert(stack_view(self.stack@) =~= pre.take(pre.len() - 1).push(hv));
                        }
                    },
                }
            },
            None => {
                self.mark_abort();
            },
        }
    }

    /// Process a node whose operator child was just attached: try
    /// function expansion; failing that, run definition-form recognition
    /// and route the outcome (the marker-consuming transition is
    /// specified on `route_remove`).
    #[verifier::rlimit(100)]
    fn handle_function(&mut self, scope: &mut Scope)
        requires
            scope_wf(old(scope)@),
        ensures
            scope_wf(final(scope)@),
            old(self).output@.is_prefix_of(final(self).output@),
            old(self).evaluated ==> final(self).evaluated,
            old(self).aborted ==> final(self).aborted,
            !old(self).aborted ==> (final(self).aborted ==> final(self).evaluated),
            !old(self).evaluated && !old(self).aborted ==> (final(self).evaluated ==> final(self).aborted),
            final(self).ast == old(self).ast,
            ({
                let n = old(self).stack@.len();
                let top = old(self).stack@.last();
                let t = top.0@;
                (n >= 1 && t.children.len() >= 2 && t.children[0].node is Some
                    && t.children[0].node->Some_0.tok_type is Func && scope_lookup(
                    old(scope)@,
                    t.children[0].node->Some_0.lexed,
                ) is None && (t.children[0].node->Some_0.lexed == "set"@
                    || t.children[0].node->Some_0.lexed == "let"@)) ==> ({
                    let relabel = builtins::spec_relabel(
                        t.children[0],
                        if t.children[0].node->Some_0.lexed == "set"@ {
                            "seteval"@
                        } else {
                            "leteval"@
                        },
                    );
                    let kids = t.children.update(0, relabel);
                    let child1 = kids[1];
                    let opens = child1.node is Some && child1.node->Some_0.tok_type is Oparen;
                    &&& stack_view(final(self).stack@) == stack_view(
                        old(self).stack@,
                    ).update(
                        n - 1,
                        (AstV { node: t.node, children: kids.remove(1) }, top.1 as int, top.2),
                    ).push((child1, 1, opens))
                    &&& final(self).evaluated == old(self).evaluated
                    &&& final(self).aborted == old(self).aborted
                    &&& final(self).output == old(self).output
                })
            }),
            ({
                let n = old(self).stack@.len();
                let top = old(self).stack@.last();
                let t = top.0@;
                (n >= 1 && t.children.len() >= 2 && t.children[0].node is Some
                    && t.children[0].node->Some_0.tok_type is Func && scope_lookup(
                    old(scope)@,
                    t.children[0].node->Some_0.lexed,
                ) is None && ({
                    let lex = t.children[0].node->Some_0.lexed;
                    lex != "set"@ && lex != "let"@ && lex != "name"@ && lex != "params"@ && lex
                        != "body"@ && lex != "seteval"@ && lex != "leteval"@
                })) ==> ({
                    let child1 = t.children[1];
                    let opens = child1.node is Some && child1.node->Some_0.tok_type is Oparen;
                    &&& stack_view(final(self).stack@) == stack_view(old(self).stack@).update(
                        n - 1,
                        (
                            AstV { node: t.node, children: t.children.remove(1) },
                            top.1 as int,
                            top.2,
                        ),
                    ).push((child1, 1, opens))
                    &&& final(self).evaluated == old(self).evaluated
                    &&& final(self).aborted == old(self).aborted
                    &&& final(self).output == old(self).output
                    &&& (opens ==> final(scope)@ == seq![Seq::<crate::scope::FuncV>::empty()].add(
                        old(scope)@,
                    ))
                    &&& (!opens ==> final(scope)@ == old(scope)@)
                })
            }),
            ({
                let n = old(self).stack@.len();
                let top = old(self).stack@.last();
                let t = top.0@;
                (n >= 1 && t.children.len() > 0 && t.children[0].node is Some
                    && t.children[0].node->Some_0.tok_type is Func && scope_lookup(
                    old(scope)@,
                    t.children[0].node->Some_0.lexed,
                ) is Some) ==> ({
                    let f = scope_lookup(old(scope)@, t.children[0].node->Some_0.lexed)->Some_0;
                    &&& (f.params.children.len() == 0 ==> stack_view(final(self).stack@)
                        == stack_view(old(self).stack@).update(n - 1, (f.body, top.1 as int, top.2))
                        && final(self).evaluated == old(self).evaluated && final(self).aborted
                        == old(self).aborted && final(self).output == old(self).output
                        && final(scope)@ == old(scope)@)
                    &&& (f.params.children.len() > 0 && spec_can_inject(
                        f.params.children,
                        t.children.skip(1),
                    ) ==> stack_view(final(self).stack@) == stack_view(old(self).stack@).update(
                        n - 1,
                        (
                            spec_subst(t.node, f.params.children, t.children.skip(1), f.body),
                            top.1 as int,
                            top.2,
                        ),
                    ) && final(self).evaluated == old(self).evaluated && final(self).aborted
                        == old(self).aborted && final(self).output == old(self).output
                        && final(scope)@ == old(scope)@)
                    &&& (f.params.children.len() > 0 && !spec_can_inject(
                        f.params.children,
                        t.children.skip(1),
                    ) ==> final(self).evaluated && final(self).aborted)
                })
            }),
    {
        match self.expand_function(scope) {
            Expansion::Expanded => {},
            Expansion::Failed => {
                self.mark_abort();
            },
            Expansion::NotCall => {
                let ghost pre = stack_view(self.stack@);
                match self.stack.pop() {
                    Some(mut parent) => {
                        proof {
                            assert(pre[pre.len() - 1] == (parent.0@, parent.1 as int, parent.2));
                            assert(stack_view(self.stack@) =~= pre.take(pre.len() - 1));
                        }
                        let result = builtins::evaluate_set_funcs(parent.0);
                        match result {
                            builtins::SetEval::Skip(node) => {
                                parent.0 = node;
                                match parent.0.get_child(1) {
                                    Some(new_child) => {
                                        let ghost pv = (parent.0@, parent.1 as int, parent.2);
                                        let ghost cv = new_child@;
                                        self.stack.push(parent);
                                        self.push_entry(new_child, 1, scope);
                                        proof {
                                            assert(stack_view(self.stack@) =~= pre.update(
                                                pre.len() - 1,
                                                pv,
                                            ).push(
                                                (cv, 1int, cv.node is Some && cv.node->Some_0.tok_type is Oparen),
                                            ));
                                        }
                                    },
                                    None => self.handle_builtin(parent, scope),
                                }
                            },
                            builtins::SetEval::Remove(node) => {
                                parent.0 = node;
                                self.route_remove(parent, scope);
                            },
                            builtins::SetEval::Other(node) => {
                                let set_result = builtins::evaluate_set(node, scope);
                                match set_result {
                                    builtins::EvalResult::Insert(node2) => {
                                        parent.0 = node2;
                                        match parent.0.get_child(1) {
                                            Some(new_child) => {
                                                let ghost pv = (
                                                    parent.0@,
                                                    parent.1 as int,
                                                    parent.2,
                                                );
                                                let ghost cv = new_child@;
                                                self.stack.push(parent);
                                                self.push_entry(new_child, 1, scope);
                                                proof {
                                                    assert(stack_view(self.stack@) =~= pre.update(
                                                        pre.len() - 1,
                                                        pv,
                                                    ).push(
                                                        (
                                                            cv,
                                                            1int,
                                                            cv.node is Some
                                                                && cv.node->Some_0.tok_type
                                                                is Oparen,
                                                        ),
                                                    ));
                                                }
                                            },
                                            None => self.handle_builtin(parent, scope),
                                        }
                                    },
                                    builtins::EvalResult::Error => {
                                        self.mark_abort();
                                    },
                                    _ => {
                                        self.retire_entry(parent.2, scope);
                                    },
                                }
                            },
                            builtins::SetEval::Error => {
                                self.mark_abort();
                            },
                        }
                    },
                    None => {
                        self.mark_abort();
                    },
                }
            },
        }
    }

    /// Look at a node's first remaining child: an operator child is
    /// attached and dispatched, a parenthesized group opens a scope
    /// frame and is descended into, and any other child is descended
    /// into directly.
    fn handle_new_node(&mut self, scope: Scope, child: Ast) -> (r: Scope)
        requires
            scope_wf(scope@),
        ensures
            scope_wf(r@),
            old(self).output@.is_prefix_of(final(self).output@),
            old(self).evaluated ==> final(self).evaluated,
            old(self).aborted ==> final(self).aborted,
            !old(self).aborted ==> (final(self).aborted ==> final(self).evaluated),
            !old(self).evaluated && !old(self).aborted ==> (final(self).evaluated ==> final(self).aborted),
            final(self).ast == old(self).ast,
            !(child@.node is Some && child@.node->Some_0.tok_type is Func) ==> ({
                let opens = child@.node is Some && child@.node->Some_0.tok_type is Oparen;
                &&& final(self).stack@ == old(self).stack@.push((child, 0, opens))
                &&& (opens ==> r@ == seq![Seq::<crate::scope::FuncV>::empty()].add(scope@))
                &&& (!opens ==> r@ == scope@)
                &&& final(self).evaluated == old(self).evaluated
                &&& final(self).aborted == old(self).aborted
                &&& final(self).output == old(self).output
            }),
            (child@.node is Some && child@.node->Some_0.tok_type is Func && old(self).stack@.len()
                == 0) ==> final(self).evaluated && final(self).aborted,
            ({
                let n = old(self).stack@.len();
                let top = old(self).stack@.last();
                (child@.node is Some && child@.node->Some_0.tok_type is Func && n >= 1
                    && scope_lookup(scope@, child@.node->Some_0.lexed) is Some) ==> ({
                    let f = scope_lookup(scope@, child@.node->Some_0.lexed)->Some_0;
                    &&& (f.params.children.len() == 0 ==> stack_view(final(self).stack@)
                        == stack_view(old(self).stack@).update(n - 1, (f.body, top.1 as int, top.2))
                        && final(self).evaluated == old(self).evaluated && final(self).aborted
                        == old(self).aborted && final(self).output == old(self).output
                        && r@ == scope@)
                    &&& (f.params.children.len() > 0 && spec_can_inject(
                        f.params.children,
                        top.0@.children,
                    ) ==> stack_view(final(self).stack@) == stack_view(old(self).stack@).update(
                        n - 1,
                        (
                            spec_subst(
                                top.0@.node,
                                f.params.children,
                                top.0@.children,
                                f.body,
                            ),
                            top.1 as int,
                            top.2,
                        ),
                    ) && final(self).evaluated == old(self).evaluated && final(self).aborted
                        == old(self).aborted && final(self).output == old(self).output
                        && r@ == scope@)
                    &&& (f.params.children.len() > 0 && !spec_can_inject(
                        f.params.children,
                        top.0@.children,
                    ) ==> final(self).evaluated && final(self).aborted)
                })
            }),
    {
        let mut scope = scope;
        let is_func = match &child.node_val {
            Some(tok) => matches!(tok.tok_type, Type::Func),
            None => false,
        };
        if is_func {
            match self.stack.pop() {
                Some(mut parent) => {
                    let ghost pre = stack_view(old(self).stack@);
                    let ghost childv = child@;
                    let _ok = parent.0.insert_child(child, 0);
                    self.stack.push(parent);
                    proof {
                        let n = pre.len();
                        assert(parent.0@.children =~= seq![childv].add(
                            old(self).stack@.last().0@.children,
                        ));
                        assert(stack_view(self.stack@) =~= pre.update(
                            n - 1,
                            (parent.0@, pre.last().1, pre.last().2),
                        ));
                        assert(parent.0@.children.skip(1) =~= old(
                            self,
                        ).stack@.last().0@.children);
                    }
                    self.handle_function(&mut scope);
                },
                None => {
                    self.mark_abort();
                },
            }
        } else {
            self.push_entry(child, 0, &mut scope);
        }
        scope
    }

    /// One step of the walk: descend into the top entry's next child, or
    /// retire the completed entry — closing the scope frame it opened —
    /// into its parent and move to the next sibling, dispatching the
    /// parent as a call when no sibling is left.  A node completed at
    /// the top level is dropped, its value discarded, and the walk moves
    /// to the next root child.  Evaluation finishes when both the work
    /// stack and the root are exhausted.
    #[verifier::rlimit(100)]
    pub fn eval_node(&mut self, scope: Scope) -> (r: Scope)
        requires
            scope_wf(scope@),
        ensures
            scope_wf(r@),
            old(self).output@.is_prefix_of(final(self).output@),
            old(self).evaluated ==> final(self).evaluated,
            old(self).aborted ==> final(self).aborted,
            !old(self).aborted ==> (final(self).aborted ==> final(self).evaluated),
            final(self).ast@.children.len() == 0 && final(self).stack@.len() == 0 ==> final(self).evaluated,
            !old(self).evaluated && old(self).stack@.len() == 0 && old(self).ast@.children.len()
                == 0 ==> final(self).evaluated && final(self).aborted == old(self).aborted && r@
                == scope@ && final(self).output == old(self).output && final(self).ast@ == old(self).ast@
                && final(self).stack@ == old(self).stack@,
            !old(self).evaluated && !old(self).aborted && final(self).evaluated && !final(self).aborted
                ==> final(self).stack@.len() == 0 && final(self).ast@.children.len() == 0,
            ({
                let n = old(self).stack@.len();
                let top = old(self).stack@.last();
                (n == 1 && top.0@.children.len() == 0 && !old(self).evaluated) ==> ({
                    &&& final(self).stack@.len() == 0
                    &&& final(self).ast == old(self).ast
                    &&& final(self).output == old(self).output
                    &&& final(self).aborted == old(self).aborted
                    &&& r@ == spec_pop_frame(scope@, top.2)
                    &&& final(self).evaluated == (old(self).ast@.children.len() == 0)
                })
            }),
            ({
                let n = old(self).stack@.len();
                let top = old(self).stack@.last();
                let par = old(self).stack@[n - 2];
                (n >= 2 && top.0@.children.len() == 0 && top.1 < usize::MAX && top.1
                    <= par.0@.children.len()) ==> ({
                    let merged = par.0@.children.insert(top.1 as int, top.0@);
                    &&& (merged.len() > top.1 + 1 ==> ({
                        let sib = merged[top.1 + 1];
                        let opens = sib.node is Some && sib.node->Some_0.tok_type is Oparen;
                        &&& stack_view(final(self).stack@) == stack_view(
                            old(self).stack@,
                        ).take(n - 2).push(
                            (
                                AstV {
                                    node: par.0@.node,
                                    children: merged.remove(top.1 + 1),
                                },
                                par.1 as int,
                                par.2,
                            ),
                        ).push((sib, top.1 + 1, opens))
                        &&& final(self).evaluated == old(self).evaluated
                        &&& final(self).aborted == old(self).aborted
                        &&& final(self).output == old(self).output
                        &&& r@ == (if opens {
                            seq![Seq::<crate::scope::FuncV>::empty()].add(
                                spec_pop_frame(scope@, top.2),
                            )
                        } else {
                            spec_pop_frame(scope@, top.2)
                        })
                    }))
                    &&& (merged.len() == top.1 + 1 ==> ({
                        let disp = AstV { node: par.0@.node, children: merged };
                        let outcome = builtins::spec_builtin(disp);
                        &&& final(self).output@ == old(self).output@ + outcome.1
                        &&& final(self).ast == old(self).ast
                        &&& r@ == spec_pop_frame(spec_pop_frame(scope@, top.2), par.2)
                        &&& (outcome.0 is Error ==> final(self).evaluated && final(self).aborted)
                        &&& (outcome.0 is Ignore ==> final(self).aborted == old(self).aborted
                            && stack_view(final(self).stack@) == stack_view(
                            old(self).stack@,
                        ).take(n - 2) && final(self).evaluated == (old(self).evaluated || (n == 2
                            && old(self).ast@.children.len() == 0)))
                        &&& (outcome.0 is Push ==> final(self).aborted == old(self).aborted
                            && final(self).evaluated == old(self).evaluated && stack_view(
                            final(self).stack@,
                        ) == stack_view(old(self).stack@).take(n - 2).push(
                            (outcome.0->Push_0, par.1 as int, false),
                        ))
                    }))
                })
            }),
            (old(self).stack@.len() == 0 && old(self).ast@.children.len() > 0 && old(
                self,
            ).ast@.children[0].node is Some && old(self).ast@.children[0].node->Some_0.tok_type
                is Func) ==> final(self).evaluated && final(self).aborted,
            ({
                let child = old(self).ast@.children[0];
                let opens = child.node is Some && child.node->Some_0.tok_type is Oparen;
                (old(self).stack@.len() == 0 && old(self).ast@.children.len() > 0 && !(child.node
                    is Some && child.node->Some_0.tok_type is Func)) ==> ({
                    &&& stack_view(final(self).stack@) == seq![(child, 0int, opens)]
                    &&& final(self).ast@ == (AstV {
                        node: old(self).ast@.node,
                        children: old(self).ast@.children.skip(1),
                    })
                    &&& final(self).evaluated == old(self).evaluated
                    &&& final(self).aborted == old(self).aborted
                    &&& final(self).output == old(self).output
                    &&& (opens ==> r@ == seq![Seq::<crate::scope::FuncV>::empty()].add(scope@))
                    &&& (!opens ==> r@ == scope@)
                })
            }),
            ({
                let n = old(self).stack@.len();
                let top = old(self).stack@.last();
                let t = top.0@;
                (n >= 1 && t.children.len() > 0 && t.children[0].node is Some
                    && t.children[0].node->Some_0.tok_type is Func && scope_lookup(
                    scope@,
                    t.children[0].node->Some_0.lexed,
                ) is Some) ==> ({
                    let f = scope_lookup(scope@, t.children[0].node->Some_0.lexed)->Some_0;
                    &&& (f.params.children.len() == 0 ==> stack_view(final(self).stack@)
                        == stack_view(old(self).stack@).update(n - 1, (f.body, top.1 as int, top.2))
                        && final(self).evaluated == old(self).evaluated && final(self).aborted
                        == old(self).aborted && final(self).output == old(self).output
                        && r@ == scope@)
                    &&& (f.params.children.len() > 0 && spec_can_inject(
                        f.params.children,
                        t.children.skip(1),
                    ) ==> stack_view(final(self).stack@) == stack_view(old(self).stack@).update(
                        n - 1,
                        (
                            spec_subst(t.node, f.params.children, t.children.skip(1), f.body),
                            top.1 as int,
                            top.2,
                        ),
                    ) && final(self).evaluated == old(self).evaluated && final(self).aborted
                        == old(self).aborted && final(self).output == old(self).output
                        && r@ == scope@)
                    &&& (f.params.children.len() > 0 && !spec_can_inject(
                        f.params.children,
                        t.children.skip(1),
                    ) ==> final(self).evaluated && final(self).aborted)
                })
            }),
            ({
                let n = old(self).stack@.len();
                let top = old(self).stack@.last();
                (n >= 1 && top.0@.children.len() > 0 && !(top.0@.children[0].node is Some
                    && top.0@.children[0].node->Some_0.tok_type is Func)) ==> ({
                    let child = top.0@.children[0];
                    let opens = child.node is Some && child.node->Some_0.tok_type is Oparen;
                    &&& stack_view(final(self).stack@) == stack_view(
                        old(self).stack@,
                    ).update(
                        n - 1,
                        (
                            AstV { node: top.0@.node, children: top.0@.children.skip(1) },
                            top.1 as int,
                            top.2,
                        ),
                    ).push((child, 0, opens))
                    &&& final(self).evaluated == old(self).evaluated
                    &&& final(self).output == old(self).output
                    &&& (opens ==> r@ == seq![Seq::<crate::scope::FuncV>::empty()].add(scope@))
                    &&& (!opens ==> r@ == scope@)
                })
            }),
    {
        let ghost scope0 = scope@;
        let mut scope = scope;
        match self.stack.pop() {
            Some(mut current) => {
                match current.0.get_child(0) {
                    Some(child) => {
                        let ghost cv = child@;
                        let ghost redv = (current.0@, current.1 as int, current.2);
                        self.stack.push(current);
                        let ghost mid = stack_view(self.stack@);
                        proof {
                            let n = old(self).stack@.len();
                            let t = old(self).stack@.last().0@;
                            assert(redv.0.children =~= t.children.skip(1));
                            assert(mid =~= stack_view(old(self).stack@).update(n - 1, redv));
                        }
                        scope = self.handle_new_node(scope, child);
                        proof {
                            let n = old(self).stack@.len();
                            let t = old(self).stack@.last().0@;
                            if cv.node is Some && cv.node->Some_0.tok_type is Func
                                && scope_lookup(scope0, cv.node->Some_0.lexed) is Some {
                                let f = scope_lookup(scope0, cv.node->Some_0.lexed)->Some_0;
                                assert(mid.update(n - 1, (f.body, redv.1, redv.2)) =~= stack_view(
                                    old(self).stack@,
                                ).update(n - 1, (f.body, redv.1, redv.2)));
                                assert(mid.update(
                                    n - 1,
                                    (
                                        spec_subst(
                                            t.node,
                                            f.params.children,
                                            t.children.skip(1),
                                            f.body,
                                        ),
                                        redv.1,
                                        redv.2,
                                    ),
                                ) =~= stack_view(old(self).stack@).update(
                                    n - 1,
                                    (
                                        spec_subst(
                                            t.node,
                                            f.params.children,
                                            t.children.skip(1),
                                            f.body,
                                        ),
                                        redv.1,
                                        redv.2,
                                    ),
                                ));
                            }
                        }
                    },
                    None => {
                        self.retire_entry(current.2, &mut scope);
                        match self.stack.pop() {
                            Some(mut parent) => {
                                let new_index = match current.1.checked_add(1) {
                                    Some(v) => v,
                                    None => {
                                        self.mark_abort();
                                        return scope;
                                    },
                                };
                                let ok = parent.0.insert_child(current.0, current.1);
                                if !ok {
                                    self.mark_abort();
                                    return scope;
                                }
                                if parent.0.child_count() > new_index {
                                    match parent.0.get_child(new_index) {
                                        Some(new_child) => {
                                            self.stack.push(parent);
                                            self.push_entry(new_child, new_index, &mut scope);
                                        },
                                        None => {
                                            self.mark_abort();
                                        },
                                    }
                                } else {
                                    let ghost disp = parent.0@;
                                    self.handle_builtin(parent, &mut scope);
                                    proof {
                                        if builtins::spec_builtin(disp).0 is Push {
                                            assert(stack_view(self.stack@).len() == self.stack@.len());
                                            assert(self.stack@.len() > 0);
                                        }
                                    }
                                }
                            },
                            None => {
                                // A completed top-level node: its value is
                                // discarded and the walk moves on.
                            },
                        }
                    },
                }
            },
            None => {
                match self.ast.get_child(0) {
                    Some(child) => {
                        let ghost cv = child@;
                        scope = self.handle_new_node(scope, child);
                        proof {
                            if !(cv.node is Some && cv.node->Some_0.tok_type is Func) {
                                assert(stack_view(self.stack@) =~= seq![
                                    (
                                        cv,
                                        0int,
                                        cv.node is Some && cv.node->Some_0.tok_type is Oparen,
                                    ),
                                ]);
                                assert(self.ast@.children =~= old(self).ast@.children.skip(1));
                            }
                        }
                    },
                    None => {
                        self.evaluated = true;
                    },
                }
            },
        }
        if self.stack.len() == 0 && self.ast.child_count() == 0 {
            self.evaluated = true;
        }
        scope
    }
}

} // verus!
