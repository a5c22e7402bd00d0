//! The syntax tree: a node optionally carries a token payload and owns an
//! ordered list of child nodes.  Child order is significant everywhere.

use vstd::prelude::*;

use crate::token::{Token, TokenV, Type};

verus! {

/// One tree node: an optional token payload (absent only for the synthetic
/// root) and the ordered, owned children.
pub struct Ast {
    pub node_val: Option<Token>,
    pub child_nodes: Vec<Ast>,
}

/// The mathematical image of an [`Ast`] node.
#[verifier::ext_equal]
pub struct AstV {
    pub node: Option<TokenV>,
    pub children: Seq<AstV>,
}

/// A leaf node carrying the token `t`.
pub open spec fn ast_leaf(t: TokenV) -> AstV {
    AstV { node: Some(t), children: Seq::empty() }
}

/// The image of a node: the token payload's image and the images of the
/// children, in order.
pub open spec fn ast_view(a: Ast) -> AstV
    decreases a,
{
    AstV {
        node: match a.node_val {
            Some(t) => Some(t@),
            None => None,
        },
        children: Seq::new(
            a.child_nodes.len() as nat,
            |i: int|
                if 0 <= i < a.child_nodes.len() {
                    ast_view(a.child_nodes[i])
                } else {
                    AstV { node: None, children: Seq::empty() }
                },
        ),
    }
}

impl View for Ast {
    type V = AstV;

    open spec fn view(&self) -> AstV {
        ast_view(*self)
    }
}

impl DeepView for Ast {
    type V = AstV;

    open spec fn deep_view(&self) -> AstV {
        self.view()
    }
}

impl Clone for Ast {
    /// A deep copy: the clone has the same image as the source node.
    fn clone(&self) -> (r: Self)
        ensures
            r@ == self@,
        decreases *self,
    {
        let node_val = match &self.node_val {
            Some(t) => Some(t.clone()),
            None => None,
        };
        let mut children: Vec<Ast> = Vec::new();
        let n = self.child_nodes.len();
        #[verifier::loop_isolation(false)]
        for i in 0..n
            invariant
                children.len() == i,
                forall|j: int| 0 <= j < i ==> children[j]@ == #[trigger] self@.children[j],
        {
            children.push(self.child_nodes[i].clone());
        }
        let r = Ast { node_val, child_nodes: children };
        proof {
            assert(r@.children =~= self@.children);
        }
        r
    }
}

/// How a tree node is read and rewritten.
pub trait AstTrait: View<V = AstV> {
    /// Append a child at the end.
    fn push_child(&mut self, ast: Ast)
        ensures
            final(self)@ == (AstV {
                children: old(self)@.children.push(ast@),
                ..old(self)@
            }),
    ;

    /// Remove and return the last child, if any.
    fn pop_child(&mut self) -> (r: Option<Ast>)
        ensures
            old(self)@.children.len() == 0 ==> final(self)@ == old(self)@ && r is None,
            old(self)@.children.len() > 0 ==> r is Some && r->Some_0@ == old(
                self,
            )@.children.last() && final(self)@ == (AstV {
                children: old(self)@.children.drop_last(),
                ..old(self)@
            }),
    ;

    /// Detach and return the child at `index`, if it exists.
    fn get_child(&mut self, index: usize) -> (r: Option<Ast>)
        ensures
            index < old(self)@.children.len() ==> r is Some && r->Some_0@ == old(
                self,
            )@.children[index as int] && final(self)@ == (AstV {
                children: old(self)@.children.remove(index as int),
                ..old(self)@
            }),
            index >= old(self)@.children.len() ==> r is None && final(self)@ == old(self)@,
    ;

    /// Attach `child` at `index`; true when `index` was within bounds.
    fn insert_child(&mut self, child: Ast, index: usize) -> (r: bool)
        ensures
            index <= old(self)@.children.len() ==> r && final(self)@ == (AstV {
                children: old(self)@.children.insert(index as int, child@),
                ..old(self)@
            }),
            index > old(self)@.children.len() ==> !r && final(self)@ == old(self)@,
    ;

    /// The number of children.
    fn child_count(&self) -> (r: usize)
        ensures
            r == self@.children.len(),
    ;

    /// Move all children out, leaving the node childless.
    fn dump_children(&mut self) -> (r: Vec<Ast>)
        ensures
            r.deep_view() == old(self)@.children,
            final(self)@ == (AstV { children: Seq::empty(), ..old(self)@ }),
    ;

    /// A deep copy of the children, the node untouched.
    fn clone_children(&self) -> (r: Vec<Ast>)
        ensures
            r.deep_view() == self@.children,
    ;
}

impl AstTrait for Ast {
    fn push_child(&mut self, ast: Ast) {
        self.child_nodes.push(ast);
        proof {
            assert(self@.children =~= old(self)@.children.push(ast@));
        }
    }

    fn pop_child(&mut self) -> (r: Option<Ast>) {
        let r = self.child_nodes.pop();
        proof {
            if old(self)@.children.len() > 0 {
                assert(self@.children =~= old(self)@.children.drop_last());
            } else {
                assert(self@.children =~= old(self)@.children);
            }
        }
        r
    }

    fn get_child(&mut self, index: usize) -> (r: Option<Ast>) {
        if self.child_nodes.len() > index {
            let child = self.child_nodes.remove(index);
            proof {
                assert(self@.children =~= old(self)@.children.remove(index as int));
            }
            Some(child)
        } else {
            None
        }
    }

    fn insert_child(&mut self, child: Ast, index: usize) -> (r: bool) {
        if self.child_nodes.len() >= index {
            self.child_nodes.insert(index, child);
            proof {
                assert(self@.children =~= old(self)@.children.insert(index as int, child@));
            }
            true
        } else {
            false
        }
    }

    fn child_count(&self) -> (r: usize) {
        self.child_nodes.len()
    }

    fn dump_children(&mut self) -> (r: Vec<Ast>) {
        let mut children: Vec<Ast> = Vec::new();
        core::mem::swap(&mut children, &mut self.child_nodes);
        proof {
            assert(children.deep_view() =~= old(self)@.children);
            assert(self@.children =~= Seq::<AstV>::empty());
        }
        children
    }

    fn clone_children(&self) -> (r: Vec<Ast>) {
        let mut children: Vec<Ast> = Vec::new();
        let n = self.child_nodes.len();
        #[verifier::loop_isolation(false)]
        for i in 0..n
            invariant
                children.len() == i,
                forall|j: int| 0 <= j < i ==> children[j]@ == #[trigger] self@.children[j],
        {
            children.push(self.child_nodes[i].clone());
        }
        proof {
            assert(children.deep_view() =~= self@.children);
        }
        children
    }
}

impl Ast {
    /// A node carrying the given token, with no children.
    pub fn new(node: Token) -> (r: Self)
        ensures
            r@ == ast_leaf(node@),
    {
        let r = Ast { node_val: Some(node), child_nodes: Vec::new() };
        proof {
            assert(r@.children =~= Seq::<AstV>::empty());
        }
        r
    }

    /// The synthetic root: no payload, no children.
    pub fn new_null() -> (r: Self)
        ensures
            r@ == (AstV { node: None, children: Seq::empty() }),
    {
        let r = Ast { node_val: None, child_nodes: Vec::new() };
        proof {
            assert(r@.children =~= Seq::<AstV>::empty());
        }
        r
    }

    /// True when the payload is a symbol (operator-name) token.
    pub fn is_function(&self) -> (r: bool)
        ensures
            r == (self@.node is Some && self@.node->Some_0.tok_type is Func),
    {
        match &self.node_val {
            Some(tok) => matches!(tok.tok_type, Type::Func),
            None => false,
        }
    }
}

} // verus!
