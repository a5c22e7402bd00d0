//! The lexical scope chain: a stack of binding frames, each owning a
//! function table sorted by name, with an owned link to its parent frame.
//! Lookup goes innermost to outermost; the first match wins.

use vstd::prelude::*;

use crate::ast::{Ast, AstV};

verus! {

/// One function entry: a name key and the parameter and body trees used
/// for call-site substitution.
pub struct Func {
    pub name: String,
    pub params: Ast,
    pub body: Ast,
}

/// The mathematical image of a [`Func`].
pub struct FuncV {
    pub name: Seq<char>,
    pub params: AstV,
    pub body: AstV,
}

impl View for Func {
    type V = FuncV;

    open spec fn view(&self) -> FuncV {
        FuncV { name: self.name@, params: self.params@, body: self.body@ }
    }
}

impl DeepView for Func {
    type V = FuncV;

    open spec fn deep_view(&self) -> FuncV {
        self.view()
    }
}

impl Func {
    /// An entry with the given name, parameters and body.
    pub fn new(name: String, params: Ast, body: Ast) -> (r: Self)
        ensures
            r@ == (FuncV { name: name@, params: params@, body: body@ }),
    {
        Func { name, params, body }
    }

    /// The entry's name key.
    pub fn get_name(&self) -> (r: &String)
        ensures
            r@ == self@.name,
    {
        &self.name
    }

    /// Overwrite the parameters and body, keeping the name.
    pub fn reset(&mut self, params: Ast, body: Ast)
        ensures
            final(self)@ == (FuncV { name: old(self)@.name, params: params@, body: body@ }),
    {
        self.params = params;
        self.body = body;
    }
}

/// Strict lexicographic order on names, by character code.
pub open spec fn str_lt(a: Seq<char>, b: Seq<char>) -> bool
    decreases a.len(),
{
    if b.len() == 0 {
        false
    } else if a.len() == 0 {
        true
    } else if a[0] != b[0] {
        (a[0] as u32) < (b[0] as u32)
    } else {
        str_lt(a.skip(1), b.skip(1))
    }
}

/// Characters with the same code are the same character.
proof fn lemma_char_code_inj(x: char, y: char)
    requires
        x as u32 == y as u32,
    ensures
        x == y,
{
}

pub proof fn lemma_str_lt_irrefl(a: Seq<char>, b: Seq<char>)
    requires
        str_lt(a, b),
    ensures
        a != b,
        !str_lt(b, a),
    decreases a.len(),
{
    if b.len() > 0 && a.len() > 0 && a[0] == b[0] {
        lemma_str_lt_irrefl(a.skip(1), b.skip(1));
        assert(a != b) by {
            if a == b {
                assert(a.skip(1) == b.skip(1));
            }
        }
    }
}

pub proof fn lemma_str_lt_connected(a: Seq<char>, b: Seq<char>)
    requires
        !str_lt(a, b),
        !str_lt(b, a),
    ensures
        a == b,
    decreases a.len(),
{
    if a.len() == 0 && b.len() == 0 {
        assert(a =~= b);
    } else if a.len() > 0 && b.len() > 0 {
        if a[0] == b[0] {
            lemma_str_lt_connected(a.skip(1), b.skip(1));
            assert(a.skip(1).len() == b.skip(1).len());
            assert(a.len() == b.len());
            assert forall|i: int| 0 <= i < a.len() implies a[i] == b[i] by {
                if i > 0 {
                    assert(a[i] == a.skip(1)[i - 1]);
                    assert(b[i] == b.skip(1)[i - 1]);
                }
            }
            assert(a =~= b);
        } else {
            assert((a[0] as u32) >= (b[0] as u32) && (b[0] as u32) >= (a[0] as u32));
            lemma_char_code_inj(a[0], b[0]);
        }
    } else if a.len() == 0 {
        assert(str_lt(a, b));
    } else {
        assert(str_lt(b, a));
    }
}

pub proof fn lemma_str_lt_trans(a: Seq<char>, b: Seq<char>, c: Seq<char>)
    requires
        str_lt(a, b),
        str_lt(b, c),
    ensures
        str_lt(a, c),
    decreases a.len(),
{
    if c.len() > 0 && a.len() > 0 {
        if b.len() > 0 {
            if a[0] == b[0] && b[0] == c[0] {
                lemma_str_lt_trans(a.skip(1), b.skip(1), c.skip(1));
            }
        }
    }
}

/// A frame's table is strictly sorted by name (so names are unique).
pub open spec fn frame_sorted(fr: Seq<FuncV>) -> bool {
    forall|i: int, j: int|
        0 <= i < j < fr.len() ==> str_lt(#[trigger] fr[i].name, #[trigger] fr[j].name)
}

/// The first entry of the frame carrying the name.
pub open spec fn frame_find(fr: Seq<FuncV>, name: Seq<char>) -> Option<FuncV>
    decreases fr.len(),
{
    if fr.len() == 0 {
        None
    } else if fr[0].name == name {
        Some(fr[0])
    } else {
        frame_find(fr.skip(1), name)
    }
}

/// In a frame with no entry of that name, `frame_find` finds nothing.
pub proof fn lemma_frame_find_none(fr: Seq<FuncV>, name: Seq<char>)
    requires
        forall|j: int| 0 <= j < fr.len() ==> (#[trigger] fr[j].name) != name,
    ensures
        frame_find(fr, name) is None,
    decreases fr.len(),
{
    if fr.len() > 0 {
        lemma_frame_find_none(fr.skip(1), name);
    }
}

/// In a strictly sorted frame, an entry of the sought name is what
/// `frame_find` finds.
pub proof fn lemma_frame_find_at(fr: Seq<FuncV>, name: Seq<char>, j: int)
    requires
        frame_sorted(fr),
        0 <= j < fr.len(),
        fr[j].name == name,
    ensures
        frame_find(fr, name) == Some(fr[j]),
    decreases fr.len(),
{
    if j > 0 {
        lemma_str_lt_irrefl(fr[0].name, fr[j].name);
        assert(fr.skip(1)[j - 1] == fr[j]);
        lemma_frame_find_at(fr.skip(1), name, j - 1);
    }
}

/// Sorted insertion into a frame: before the first entry that is not
/// smaller; dropped when that entry carries the same name.
pub open spec fn frame_insert(fr: Seq<FuncV>, f: FuncV) -> Seq<FuncV>
    decreases fr.len(),
{
    if fr.len() == 0 {
        seq![f]
    } else if str_lt(fr[0].name, f.name) {
        seq![fr[0]].add(frame_insert(fr.skip(1), f))
    } else if fr[0].name == f.name {
        fr
    } else {
        seq![f].add(fr)
    }
}

/// The whole chain, innermost frame first.
pub open spec fn scope_frames(s: Scope) -> Seq<Seq<FuncV>>
    decreases s,
{
    seq![s.funcs.deep_view()].add(
        match s.parent {
            Some(p) => scope_frames(*p),
            None => Seq::empty(),
        },
    )
}

/// The first entry of that name, searching innermost to outermost.
pub open spec fn scope_lookup(frames: Seq<Seq<FuncV>>, name: Seq<char>) -> Option<FuncV>
    decreases frames.len(),
{
    if frames.len() == 0 {
        None
    } else {
        match frame_find(frames[0], name) {
            Some(f) => Some(f),
            None => scope_lookup(frames.skip(1), name),
        }
    }
}

/// The chain with the first entry of that name overwritten (its name
/// kept, its parameters and body replaced); `None` when no frame holds
/// the name.
pub open spec fn scope_reset(
    frames: Seq<Seq<FuncV>>,
    name: Seq<char>,
    params: AstV,
    body: AstV,
) -> Option<Seq<Seq<FuncV>>>
    decreases frames.len(),
{
    if frames.len() == 0 {
        None
    } else {
        match frame_reset(frames[0], name, params, body) {
            Some(fr) => Some(frames.update(0, fr)),
            None => match scope_reset(frames.skip(1), name, params, body) {
                Some(rest) => Some(seq![frames[0]].add(rest)),
                None => None,
            },
        }
    }
}

/// The frame with the first entry of that name overwritten.
pub open spec fn frame_reset(fr: Seq<FuncV>, name: Seq<char>, params: AstV, body: AstV) -> Option<
    Seq<FuncV>,
>
    decreases fr.len(),
{
    if fr.len() == 0 {
        None
    } else if fr[0].name == name {
        Some(fr.update(0, FuncV { name: fr[0].name, params, body }))
    } else {
        match frame_reset(fr.skip(1), name, params, body) {
            Some(rest) => Some(seq![fr[0]].add(rest)),
            None => None,
        }
    }
}

/// Every frame of the chain is strictly sorted.
pub open spec fn scope_wf(frames: Seq<Seq<FuncV>>) -> bool {
    forall|i: int| 0 <= i < frames.len() ==> frame_sorted(#[trigger] frames[i])
}

/// One frame of the scope chain: its sorted function table and the owned
/// link to the enclosing frame.
pub struct Scope {
    pub parent: Option<Box<Scope>>,
    pub funcs: Vec<Func>,
    pub evaluate_scope: bool,
}

impl View for Scope {
    type V = Seq<Seq<FuncV>>;

    open spec fn view(&self) -> Seq<Seq<FuncV>> {
        scope_frames(*self)
    }
}

/// True when `a` sorts strictly before `b`.
pub fn name_lt(a: &str, b: &str) -> (r: bool)
    ensures
        r == str_lt(a@, b@),
    decreases a@.len(),
{
    let alen = a.unicode_len();
    let blen = b.unicode_len();
    let mut i: usize = 0;
    proof {
        assert(a@.skip(0) =~= a@);
        assert(b@.skip(0) =~= b@);
    }
    loop
        invariant
            0 <= i <= alen,
            i <= blen,
            alen == a@.len(),
            blen == b@.len(),
            str_lt(a@, b@) == str_lt(a@.skip(i as int), b@.skip(i as int)),
        decreases alen - i,
    {
        proof {
            let sa = a@.skip(i as int);
            let sb = b@.skip(i as int);
            if i < alen && i < blen {
                assert(sa[0] == a@[i as int]);
                assert(sb[0] == b@[i as int]);
                assert(sa.skip(1) =~= a@.skip(i + 1));
                assert(sb.skip(1) =~= b@.skip(i + 1));
            }
        }
        if i >= blen {
            return false;
        }
        if i >= alen {
            return true;
        }
        let ca = a.get_char(i);
        let cb = b.get_char(i);
        if ca as u32 != cb as u32 {
            return (ca as u32) < (cb as u32);
        }
        i = i + 1;
    }
}

impl Scope {
    /// A fresh innermost frame over the given chain.
    pub fn new(parent: Scope) -> (r: Self)
        ensures
            r@ == seq![Seq::<FuncV>::empty()].add(parent@),
    {
        let r = Scope { parent: Some(Box::new(parent)), funcs: Vec::new(), evaluate_scope: false };
        proof {
            assert(r.funcs.deep_view() =~= Seq::<FuncV>::empty());
        }
        r
    }

    /// The root frame: no parent, no entries.
    pub fn new_root() -> (r: Self)
        ensures
            r@ == seq![Seq::<FuncV>::empty()],
    {
        let r = Scope { parent: None, funcs: Vec::new(), evaluate_scope: false };
        proof {
            assert(r.funcs.deep_view() =~= Seq::<FuncV>::empty());
            assert(r@ =~= seq![Seq::<FuncV>::empty()]);
        }
        r
    }

    /// Insert the entry into the innermost frame, unless some frame of
    /// the chain already holds its name.
    pub fn insert_func(&mut self, func: Func)
        requires
            scope_wf(old(self)@),
        ensures
            scope_wf(final(self)@),
            scope_lookup(old(self)@, func@.name) is Some ==> final(self)@ == old(self)@,
            scope_lookup(old(self)@, func@.name) is None ==> final(self)@ == old(self)@.update(
                0,
                frame_insert(old(self)@[0], func@),
            ),
    {
        if self.find_func(func.get_name()).is_none() {
            self.insert_func_no_search(func);
        }
    }

    /// Insert the entry into the innermost frame at its sorted position;
    /// an entry of the same name already in that frame is left as it is.
    pub fn insert_func_no_search(&mut self, func: Func)
        requires
            scope_wf(old(self)@),
        ensures
            scope_wf(final(self)@),
            final(self)@ == old(self)@.update(0, frame_insert(old(self)@[0], func@)),
    {
        let ghost fr = self.funcs.deep_view();
        proof {
            assert(old(self)@[0] == fr);
        }
        let mut i: usize = 0;
        let n = self.funcs.len();
        while i < n
            invariant
                0 <= i <= n,
                n == fr.len(),
                fr == self.funcs.deep_view(),
                n == self.funcs.len(),
                frame_sorted(fr),
                forall|j: int| 0 <= j < i ==> str_lt(#[trigger] fr[j].name, func@.name),
            ensures
                0 <= i <= n,
                forall|j: int| 0 <= j < i ==> str_lt(#[trigger] fr[j].name, func@.name),
                i < n ==> !str_lt(fr[i as int].name, func@.name),
            decreases n - i,
        {
            if !name_lt(self.funcs[i].get_name().as_str(), func.get_name().as_str()) {
                break;
            }
            i = i + 1;
        }
        let mut same = false;
        if i < n {
            same = !name_lt(func.get_name().as_str(), self.funcs[i].get_name().as_str());
            proof {
                if same {
                    lemma_str_lt_connected(fr[i as int].name, func@.name);
                } else {
                    if fr[i as int].name == func@.name {
                        lemma_str_lt_connected(fr[i as int].name, func@.name);
                    }
                }
            }
        }
        if same {
            proof {
                lemma_insert_found(fr, func@, i as int);
                assert(self@ =~= old(self)@.update(0, frame_insert(old(self)@[0], func@)));
            }
            return ;
        }
        self.funcs.insert(i, func);
        proof {
            lemma_insert_at(fr, func@, i as int);
            lemma_frame_insert_sorted(fr, func@);
            assert(self.funcs.deep_view() =~= fr.insert(i as int, func@));
            assert(self.parent == old(self).parent);
            assert(self@ =~= old(self)@.update(0, frame_insert(old(self)@[0], func@)));
            assert forall|k: int| 0 <= k < self@.len() implies frame_sorted(
                #[trigger] self@[k],
            ) by {
                if k == 0 {
                    assert(self@[0] == frame_insert(fr, func@));
                } else {
                    assert(self@[k] == old(self)@[k]);
                }
            }
        }
    }

    /// Insert the entry at its sorted position into the frame enclosing
    /// the innermost one — the scope a definition form stands in, the
    /// form's own frame being below it — or into the root frame when no
    /// enclosing frame exists.
    pub fn insert_func_no_search_outer(&mut self, func: Func)
        requires
            scope_wf(old(self)@),
        ensures
            scope_wf(final(self)@),
            old(self)@.len() > 1 ==> final(self)@ == old(self)@.update(
                1,
                frame_insert(old(self)@[1], func@),
            ),
            old(self)@.len() == 1 ==> final(self)@ == old(self)@.update(
                0,
                frame_insert(old(self)@[0], func@),
            ),
    {
        let ghost fr = self.funcs.deep_view();
        match &mut self.parent {
            Some(parent) => {
                proof {
                    assert(old(self)@.skip(1) =~= parent@);
                    assert forall|k: int| 0 <= k < parent@.len() implies frame_sorted(
                        #[trigger] parent@[k],
                    ) by {
                        assert(parent@[k] == old(self)@[k + 1]);
                    }
                }
                parent.insert_func_no_search(func);
                proof {
                    assert(self@ =~= seq![fr].add(parent@));
                    assert(self@ =~= old(self)@.update(
                        1,
                        frame_insert(old(self)@[1], func@),
                    ));
                    assert forall|k: int| 0 <= k < self@.len() implies frame_sorted(
                        #[trigger] self@[k],
                    ) by {
                        if k == 0 {
                            assert(self@[0] == old(self)@[0]);
                        } else {
                            assert(self@[k] == parent@[k - 1]);
                        }
                    }
                }
            },
            None => {
                proof {
                    assert(old(self)@.skip(1) =~= Seq::<Seq<FuncV>>::empty());
                }
                self.insert_func_no_search(func);
            },
        }
    }

    /// Install the entry into this frame alone: overwrite in place when
    /// the frame already holds the name, else insert at the sorted
    /// position.  Enclosing frames are never touched.
    fn put_in_frame(&mut self, func: Func)
        requires
            scope_wf(old(self)@),
        ensures
            scope_wf(final(self)@),
            final(self)@ == old(self)@.update(0, frame_put(old(self)@[0], func@)),
    {
        let ghost fr = self.funcs.deep_view();
        proof {
            assert(old(self)@[0] == fr);
        }
        let mut i: usize = 0;
        let n = self.funcs.len();
        while i < n
            invariant
                0 <= i <= n,
                n == fr.len(),
                fr == self.funcs.deep_view(),
                n == self.funcs.len(),
                frame_sorted(fr),
                forall|j: int| 0 <= j < i ==> str_lt(#[trigger] fr[j].name, func@.name),
            ensures
                0 <= i <= n,
                forall|j: int| 0 <= j < i ==> str_lt(#[trigger] fr[j].name, func@.name),
                i < n ==> !str_lt(fr[i as int].name, func@.name),
            decreases n - i,
        {
            if !name_lt(self.funcs[i].get_name().as_str(), func.get_name().as_str()) {
                break;
            }
            i = i + 1;
        }
        let mut same = false;
        if i < n {
            same = !name_lt(func.get_name().as_str(), self.funcs[i].get_name().as_str());
            proof {
                if same {
                    lemma_str_lt_connected(fr[i as int].name, func@.name);
                } else {
                    if fr[i as int].name == func@.name {
                        lemma_str_lt_connected(fr[i as int].name, func@.name);
                    }
                }
            }
        }
        if same {
            let mut entry = self.funcs.remove(i);
            entry.reset(func.params, func.body);
            self.funcs.insert(i, entry);
            proof {
                let fr2 = fr.update(
                    i as int,
                    FuncV { name: fr[i as int].name, params: func@.params, body: func@.body },
                );
                lemma_frame_find_at(fr, func@.name, i as int);
                lemma_frame_reset_at(fr, func@.name, func@.params, func@.body, i as int);
                lemma_sorted_update(fr, i as int, func@.params, func@.body);
                assert(self.funcs.deep_view() =~= fr2);
                assert(self.parent == old(self).parent);
                assert(self@ =~= old(self)@.update(0, frame_put(old(self)@[0], func@)));
                assert forall|k: int| 0 <= k < self@.len() implies frame_sorted(
                    #[trigger] self@[k],
                ) by {
                    assert(self@[k] == if k == 0 { fr2 } else { old(self)@[k] });
                }
            }
            return ;
        }
        proof {
            assert forall|j: int| 0 <= j < n implies (#[trigger] fr[j].name) != func@.name by {
                if j < i {
                    lemma_str_lt_irrefl(fr[j].name, func@.name);
                } else if j == i {
                    lemma_str_lt_irrefl(func@.name, fr[i as int].name);
                } else {
                    lemma_str_lt_trans(func@.name, fr[i as int].name, fr[j].name);
                    lemma_str_lt_irrefl(func@.name, fr[j].name);
                }
            }
            lemma_frame_find_none(fr, func@.name);
        }
        self.funcs.insert(i, func);
        proof {
            lemma_insert_at(fr, func@, i as int);
            lemma_frame_insert_sorted(fr, func@);
            assert(self.funcs.deep_view() =~= fr.insert(i as int, func@));
            assert(self.parent == old(self).parent);
            assert(self@ =~= old(self)@.update(0, frame_put(old(self)@[0], func@)));
            assert forall|k: int| 0 <= k < self@.len() implies frame_sorted(
                #[trigger] self@[k],
            ) by {
                if k == 0 {
                    assert(self@[0] == frame_insert(fr, func@));
                } else {
                    assert(self@[k] == old(self)@[k]);
                }
            }
        }
    }

    /// Install a local binding into the frame enclosing the innermost
    /// one — the scope a binding form stands in, the form's own frame
    /// being below it — or into the root frame when no enclosing frame
    /// exists.  An entry of the same name in that one frame is
    /// overwritten; frames further out are never touched.
    pub fn install_func_outer(&mut self, func: Func)
        requires
            scope_wf(old(self)@),
        ensures
            scope_wf(final(self)@),
            final(self)@ == spec_put_outer(old(self)@, func@),
    {
        let ghost fr = self.funcs.deep_view();
        match &mut self.parent {
            Some(parent) => {
                proof {
                    assert(old(self)@.skip(1) =~= parent@);
                    assert forall|k: int| 0 <= k < parent@.len() implies frame_sorted(
                        #[trigger] parent@[k],
                    ) by {
                        assert(parent@[k] == old(self)@[k + 1]);
                    }
                }
                parent.put_in_frame(func);
                proof {
                    assert(self@ =~= seq![fr].add(parent@));
                    assert(self@ =~= old(self)@.update(1, frame_put(old(self)@[1], func@)));
                    assert forall|k: int| 0 <= k < self@.len() implies frame_sorted(
                        #[trigger] self@[k],
                    ) by {
                        if k == 0 {
                            assert(self@[0] == old(self)@[0]);
                        } else {
                            assert(self@[k] == parent@[k - 1]);
                        }
                    }
                }
            },
            None => {
                proof {
                    assert(old(self)@.skip(1) =~= Seq::<Seq<FuncV>>::empty());
                }
                self.put_in_frame(func);
            },
        }
    }

    /// Find the first entry of that name, innermost frame first.
    pub fn find_func(&self, tok_str: &String) -> (r: Option<&Func>)
        requires
            scope_wf(self@),
        ensures
            r is Some ==> scope_lookup(self@, tok_str@) == Some(r->Some_0@),
            r is None ==> scope_lookup(self@, tok_str@) is None,
        decreases *self,
    {
        let ghost fr = self.funcs.deep_view();
        proof {
            assert(self@[0] == fr);
        }
        let n = self.funcs.len();
        let mut lo: usize = 0;
        let mut hi: usize = n;
        while lo < hi
            invariant
                0 <= lo <= hi <= n,
                n == fr.len(),
                fr == self.funcs.deep_view(),
                self@[0] == fr,
                frame_sorted(fr),
                forall|j: int| 0 <= j < lo ==> str_lt(#[trigger] fr[j].name, tok_str@),
                forall|j: int| hi <= j < n ==> str_lt(tok_str@, #[trigger] fr[j].name),
            decreases hi - lo,
        {
            let mid = lo + (hi - lo) / 2;
            if name_lt(self.funcs[mid].get_name().as_str(), tok_str.as_str()) {
                proof {
                    assert forall|j: int| 0 <= j < mid + 1 implies str_lt(
                        #[trigger] fr[j].name,
                        tok_str@,
                    ) by {
                        if j < mid {
                            lemma_str_lt_trans(fr[j].name, fr[mid as int].name, tok_str@);
                        }
                    }
                }
                lo = mid + 1;
            } else if name_lt(tok_str.as_str(), self.funcs[mid].get_name().as_str()) {
                proof {
                    assert forall|j: int| mid <= j < n implies str_lt(
                        tok_str@,
                        #[trigger] fr[j].name,
                    ) by {
                        if j > mid {
                            lemma_str_lt_trans(tok_str@, fr[mid as int].name, fr[j].name);
                        }
                    }
                }
                hi = mid;
            } else {
                proof {
                    lemma_str_lt_connected(fr[mid as int].name, tok_str@);
                    lemma_frame_find_at(fr, tok_str@, mid as int);
                }
                return Some(&self.funcs[mid]);
            }
        }
        proof {
            assert forall|j: int| 0 <= j < n implies (#[trigger] fr[j].name) != tok_str@ by {
                if j < lo {
                    lemma_str_lt_irrefl(fr[j].name, tok_str@);
                } else {
                    lemma_str_lt_irrefl(tok_str@, fr[j].name);
                }
            }
            lemma_frame_find_none(fr, tok_str@);
        }
        match &self.parent {
            Some(parent) => {
                proof {
                    assert(self@.skip(1) =~= parent@);
                    assert forall|k: int| 0 <= k < parent@.len() implies frame_sorted(
                        #[trigger] parent@[k],
                    ) by {
                        assert(parent@[k] == self@[k + 1]);
                    }
                }
                let res = parent.find_func(tok_str);
                proof {
                    assert(scope_lookup(self@, tok_str@) == scope_lookup(parent@, tok_str@));
                }
                res
            },
            None => {
                proof {
                    reveal_with_fuel(scope_lookup, 2);
                    assert(self@.skip(1) =~= Seq::<Seq<FuncV>>::empty());
                }
                None
            },
        }
    }

    /// Overwrite the parameters and body of the first entry of that
    /// name; true exactly when some frame held it.
    pub fn reset_func(&mut self, tok_str: &String, params: Ast, body: Ast) -> (r: bool)
        requires
            scope_wf(old(self)@),
        ensures
            scope_wf(final(self)@),
            r == (scope_lookup(old(self)@, tok_str@) is Some),
            r ==> Some(final(self)@) == scope_reset(old(self)@, tok_str@, params@, body@),
            !r ==> final(self)@ == old(self)@,
        decreases *old(self),
    {
        let ghost fr = self.funcs.deep_view();
        proof {
            assert(old(self)@[0] == fr);
        }
        let n = self.funcs.len();
        let mut lo: usize = 0;
        let mut hi: usize = n;
        while lo < hi
            invariant
                *self == *old(self),
                scope_wf(old(self)@),
                0 <= lo <= hi <= n,
                n == fr.len(),
                fr == self.funcs.deep_view(),
                n == self.funcs.len(),
                old(self)@[0] == fr,
                frame_sorted(fr),
                forall|j: int| 0 <= j < lo ==> str_lt(#[trigger] fr[j].name, tok_str@),
                forall|j: int| hi <= j < n ==> str_lt(tok_str@, #[trigger] fr[j].name),
            decreases hi - lo,
        {
            let mid = lo + (hi - lo) / 2;
            if name_lt(self.funcs[mid].get_name().as_str(), tok_str.as_str()) {
                proof {
                    assert forall|j: int| 0 <= j < mid + 1 implies str_lt(
                        #[trigger] fr[j].name,
                        tok_str@,
                    ) by {
                        if j < mid {
                            lemma_str_lt_trans(fr[j].name, fr[mid as int].name, tok_str@);
                        }
                    }
                }
                lo = mid + 1;
            } else if name_lt(tok_str.as_str(), self.funcs[mid].get_name().as_str()) {
                proof {
                    assert forall|j: int| mid <= j < n implies str_lt(
                        tok_str@,
                        #[trigger] fr[j].name,
                    ) by {
                        if j > mid {
                            lemma_str_lt_trans(tok_str@, fr[mid as int].name, fr[j].name);
                        }
                    }
                }
                hi = mid;
            } else {
                proof {
                    lemma_str_lt_connected(fr[mid as int].name, tok_str@);
                }
                let mut entry = self.funcs.remove(mid);
                entry.reset(params, body);
                self.funcs.insert(mid, entry);
                proof {
                    let fr2 = fr.update(
                        mid as int,
                        FuncV { name: fr[mid as int].name, params: params@, body: body@ },
                    );
                    lemma_frame_find_at(fr, tok_str@, mid as int);
                    lemma_frame_reset_at(fr, tok_str@, params@, body@, mid as int);
                    lemma_sorted_update(fr, mid as int, params@, body@);
                    assert(self.funcs.deep_view() =~= fr2);
                    assert(self.parent == old(self).parent);
                    assert(self@ =~= old(self)@.update(0, fr2));
                    assert forall|i: int| 0 <= i < self@.len() implies frame_sorted(
                        #[trigger] self@[i],
                    ) by {
                        assert(self@[i] == if i == 0 { fr2 } else { old(self)@[i] });
                    }
                }
                return true;
            }
        }
        proof {
            assert forall|j: int| 0 <= j < n implies (#[trigger] fr[j].name) != tok_str@ by {
                if j < lo {
                    lemma_str_lt_irrefl(fr[j].name, tok_str@);
                } else {
                    lemma_str_lt_irrefl(tok_str@, fr[j].name);
                }
            }
            lemma_frame_find_none(fr, tok_str@);
        }
        match &mut self.parent {
            Some(parent) => {
                let ghost parent_pre = parent@;
                proof {
                    assert(decreases_to!(*old(self) => **parent));
                    assert(old(self)@.skip(1) =~= parent@);
                    assert forall|k: int| 0 <= k < parent@.len() implies frame_sorted(
                        #[trigger] parent@[k],
                    ) by {
                        assert(parent@[k] == old(self)@[k + 1]);
                    }
                }
                let r = parent.reset_func(tok_str, params, body);
                proof {
                    lemma_frame_reset_none(fr, tok_str@, params@, body@);
                    assert(old(self)@.skip(1) =~= parent_pre);
                    assert(self@ =~= seq![fr].add(parent@));
                    if r {
                        assert(self@ =~= scope_reset(old(self)@, tok_str@, params@, body@)->Some_0);
                    }
                }
                r
            },
            None => {
                proof {
                    reveal_with_fuel(scope_lookup, 2);
                    reveal_with_fuel(scope_reset, 2);
                    lemma_frame_reset_none(fr, tok_str@, params@, body@);
                    assert(old(self)@.skip(1) =~= Seq::<Seq<FuncV>>::empty());
                }
                false
            },
        }
    }
}

/// Open a fresh, empty innermost frame.
pub fn push_frame(scope: &mut Scope)
    ensures
        final(scope)@ == seq![Seq::<FuncV>::empty()].add(old(scope)@),
        scope_wf(old(scope)@) ==> scope_wf(final(scope)@),
{
    let mut taken = Scope::new_root();
    core::mem::swap(scope, &mut taken);
    *scope = Scope::new(taken);
    proof {
        if scope_wf(old(scope)@) {
            assert forall|i: int| 0 <= i < scope@.len() implies frame_sorted(
                #[trigger] scope@[i],
            ) by {
                if i > 0 {
                    assert(scope@[i] == old(scope)@[i - 1]);
                }
            }
        }
    }
}

/// The chain after closing the innermost frame, when one was opened:
/// the root frame always stays.
pub open spec fn spec_pop_frame(frames: Seq<Seq<FuncV>>, opened: bool) -> Seq<Seq<FuncV>> {
    if opened && frames.len() > 1 {
        frames.skip(1)
    } else {
        frames
    }
}

/// Close the innermost frame, back to the enclosing one; the root frame
/// stays.
pub fn pop_frame(scope: &mut Scope)
    ensures
        old(scope)@.len() > 1 ==> final(scope)@ == old(scope)@.skip(1),
        old(scope)@.len() == 1 ==> final(scope)@ == old(scope)@,
        scope_wf(old(scope)@) ==> scope_wf(final(scope)@),
{
    let mut taken = Scope::new_root();
    core::mem::swap(scope, &mut taken);
    match taken.parent {
        Some(p) => {
            *scope = *p;
            proof {
                assert(old(scope)@.skip(1) =~= scope@);
                if scope_wf(old(scope)@) {
                    assert forall|i: int| 0 <= i < scope@.len() implies frame_sorted(
                        #[trigger] scope@[i],
                    ) by {
                        assert(scope@[i] == old(scope)@[i + 1]);
                    }
                }
            }
        },
        None => {
            let restored = Scope { parent: None, funcs: taken.funcs, evaluate_scope: taken.evaluate_scope };
            *scope = restored;
            proof {
                assert(scope@ =~= old(scope)@);
            }
        },
    }
}

/// Dropping the first entry keeps a frame sorted.
proof fn lemma_sorted_skip(fr: Seq<FuncV>)
    requires
        frame_sorted(fr),
        fr.len() > 0,
    ensures
        frame_sorted(fr.skip(1)),
{
    assert forall|i: int, j: int| 0 <= i < j < fr.skip(1).len() implies str_lt(
        #[trigger] fr.skip(1)[i].name,
        #[trigger] fr.skip(1)[j].name,
    ) by {
        assert(fr.skip(1)[i] == fr[i + 1]);
        assert(fr.skip(1)[j] == fr[j + 1]);
    }
}

/// At a position whose entry carries the inserted name, sorted insertion
/// leaves the frame as it is.
proof fn lemma_insert_found(fr: Seq<FuncV>, f: FuncV, i: int)
    requires
        frame_sorted(fr),
        0 <= i < fr.len(),
        fr[i].name == f.name,
        forall|j: int| 0 <= j < i ==> str_lt(#[trigger] fr[j].name, f.name),
    ensures
        frame_insert(fr, f) == fr,
    decreases i,
{
    if i == 0 {
        if str_lt(fr[0].name, f.name) {
            lemma_str_lt_irrefl(fr[0].name, f.name);
        }
    } else {
        lemma_sorted_skip(fr);
        assert(fr.skip(1)[i - 1] == fr[i]);
        assert(forall|j: int|
            0 <= j < i - 1 ==> str_lt(#[trigger] fr.skip(1)[j].name, f.name)) by {
            assert(forall|j: int| 0 <= j < i - 1 ==> fr.skip(1)[j] == #[trigger] fr[j + 1]);
        }
        lemma_insert_found(fr.skip(1), f, i - 1);
        assert(seq![fr[0]].add(fr.skip(1)) =~= fr);
    }
}

/// At the first position whose entry is not smaller, sorted insertion
/// puts the entry there.
proof fn lemma_insert_at(fr: Seq<FuncV>, f: FuncV, i: int)
    requires
        frame_sorted(fr),
        0 <= i <= fr.len(),
        forall|j: int| 0 <= j < i ==> str_lt(#[trigger] fr[j].name, f.name),
        i < fr.len() ==> !str_lt(fr[i].name, f.name) && fr[i].name != f.name,
    ensures
        frame_insert(fr, f) == fr.insert(i, f),
    decreases i,
{
    if i == 0 {
        if fr.len() == 0 {
            assert(frame_insert(fr, f) =~= fr.insert(0, f));
        } else {
            assert(frame_insert(fr, f) =~= fr.insert(0, f));
        }
    } else {
        lemma_sorted_skip(fr);
        assert(forall|j: int|
            0 <= j < i - 1 ==> str_lt(#[trigger] fr.skip(1)[j].name, f.name)) by {
            assert(forall|j: int| 0 <= j < i - 1 ==> fr.skip(1)[j] == #[trigger] fr[j + 1]);
        }
        assert(i - 1 < fr.skip(1).len() ==> fr.skip(1)[i - 1] == fr[i as int]);
        lemma_insert_at(fr.skip(1), f, i - 1);
        assert(seq![fr[0]].add(fr.skip(1).insert(i - 1, f)) =~= fr.insert(i, f));
    }
}

/// Sorted insertion keeps the frame sorted, adds no name but the new
/// one, and grows the frame by at most one entry.
proof fn lemma_frame_insert_sorted(fr: Seq<FuncV>, f: FuncV)
    requires
        frame_sorted(fr),
    ensures
        frame_sorted(frame_insert(fr, f)),
        forall|k: int|
            0 <= k < frame_insert(fr, f).len() ==> frame_insert(fr, f)[k] == f || fr.contains(
                #[trigger] frame_insert(fr, f)[k],
            ),
    decreases fr.len(),
{
    let res = frame_insert(fr, f);
    if fr.len() == 0 {
    } else if str_lt(fr[0].name, f.name) {
        lemma_sorted_skip(fr);
        lemma_frame_insert_sorted(fr.skip(1), f);
        let rest = frame_insert(fr.skip(1), f);
        assert forall|k: int| 0 <= k < res.len() implies res[k] == f || fr.contains(
            #[trigger] res[k],
        ) by {
            if k == 0 {
                assert(fr.contains(fr[0]));
            } else {
                assert(res[k] == rest[k - 1]);
                if rest[k - 1] != f {
                    let j = choose|j: int| 0 <= j < fr.skip(1).len() && fr.skip(1)[j] == rest[k
                        - 1];
                    assert(fr[j + 1] == rest[k - 1]);
                }
            }
        }
        assert forall|i: int, j: int| 0 <= i < j < res.len() implies str_lt(
            #[trigger] res[i].name,
            #[trigger] res[j].name,
        ) by {
            if i == 0 {
                assert(res[j] == rest[j - 1]);
                if rest[j - 1] == f {
                } else {
                    let m = choose|m: int| 0 <= m < fr.skip(1).len() && fr.skip(1)[m] == rest[j
                        - 1];
                    assert(fr[m + 1] == rest[j - 1]);
                }
            } else {
                assert(res[i] == rest[i - 1]);
                assert(res[j] == rest[j - 1]);
            }
        }
    } else if fr[0].name == f.name {
    } else {
        if !str_lt(f.name, fr[0].name) {
            lemma_str_lt_connected(fr[0].name, f.name);
        }
        assert forall|i: int, j: int| 0 <= i < j < res.len() implies str_lt(
            #[trigger] res[i].name,
            #[trigger] res[j].name,
        ) by {
            if i == 0 {
                assert(res[j] == fr[j - 1]);
                if j - 1 > 0 {
                    lemma_str_lt_trans(f.name, fr[0].name, fr[j - 1].name);
                }
            } else {
                assert(res[i] == fr[i - 1]);
                assert(res[j] == fr[j - 1]);
            }
        }
    }
}

/// In a frame with no entry of that name, `frame_reset` changes nothing.
proof fn lemma_frame_reset_none(fr: Seq<FuncV>, name: Seq<char>, params: AstV, body: AstV)
    requires
        forall|j: int| 0 <= j < fr.len() ==> (#[trigger] fr[j].name) != name,
    ensures
        frame_reset(fr, name, params, body) is None,
    decreases fr.len(),
{
    if fr.len() > 0 {
        lemma_frame_reset_none(fr.skip(1), name, params, body);
    }
}

/// Resetting the entry at a found position is what `frame_reset` does.
proof fn lemma_frame_reset_at(fr: Seq<FuncV>, name: Seq<char>, params: AstV, body: AstV, i: int)
    requires
        frame_sorted(fr),
        0 <= i < fr.len(),
        fr[i].name == name,
        forall|j: int| 0 <= j < i ==> str_lt(#[trigger] fr[j].name, name),
    ensures
        frame_reset(fr, name, params, body) == Some(
            fr.update(i, FuncV { name: fr[i].name, params, body }),
        ),
    decreases i,
{
    if i == 0 {
    } else {
        lemma_str_lt_irrefl(fr[0].name, name);
        lemma_sorted_skip(fr);
        assert(fr.skip(1)[i - 1] == fr[i]);
        assert(forall|j: int| 0 <= j < i - 1 ==> str_lt(#[trigger] fr.skip(1)[j].name, name)) by {
            assert(forall|j: int| 0 <= j < i - 1 ==> fr.skip(1)[j] == #[trigger] fr[j + 1]);
        }
        lemma_frame_reset_at(fr.skip(1), name, params, body, i - 1);
        assert(seq![fr[0]].add(
            fr.skip(1).update(i - 1, FuncV { name: fr[i].name, params, body }),
        ) =~= fr.update(i, FuncV { name: fr[i].name, params, body }));
    }
}

/// Updating an entry's trees in place keeps the frame sorted.
proof fn lemma_sorted_update(fr: Seq<FuncV>, i: int, params: AstV, body: AstV)
    requires
        frame_sorted(fr),
        0 <= i < fr.len(),
    ensures
        frame_sorted(fr.update(i, FuncV { name: fr[i].name, params, body })),
{
    let res = fr.update(i, FuncV { name: fr[i].name, params, body });
    assert forall|a: int, b: int| 0 <= a < b < res.len() implies str_lt(
        #[trigger] res[a].name,
        #[trigger] res[b].name,
    ) by {
        assert(res[a].name == fr[a].name);
        assert(res[b].name == fr[b].name);
    }
}


/// Overwriting an entry in a frame succeeds exactly when the frame holds
/// the name; it keeps the frame's size and every name in place, and the
/// overwritten entry is then what the frame finds under that name.
proof fn lemma_frame_reset_props(fr: Seq<FuncV>, name: Seq<char>, params: AstV, body: AstV)
    ensures
        (frame_reset(fr, name, params, body) is Some) == (frame_find(fr, name) is Some),
        frame_reset(fr, name, params, body) is Some ==> ({
            let r = frame_reset(fr, name, params, body)->Some_0;
            &&& r.len() == fr.len()
            &&& forall|j: int| 0 <= j < fr.len() ==> (#[trigger] r[j]).name == fr[j].name
            &&& frame_find(r, name) == Some(FuncV { name, params, body })
        }),
    decreases fr.len(),
{
    if fr.len() > 0 {
        if fr[0].name == name {
            let r = frame_reset(fr, name, params, body)->Some_0;
            assert(frame_find(r, name) == Some(r[0]));
        } else {
            lemma_frame_reset_props(fr.skip(1), name, params, body);
            match frame_reset(fr.skip(1), name, params, body) {
                Some(rest) => {
                    let r = seq![fr[0]].add(rest);
                    assert(r.skip(1) =~= rest);
                    assert(forall|j: int|
                        1 <= j < r.len() ==> (#[trigger] r[j]).name == rest[j - 1].name);
                },
                None => {},
            }
        }
    }
}

/// Rebinding a visible name never grows the table: the chain keeps its
/// frames, every frame keeps its size and names, and the name then
/// resolves to the fresh parameters and body — the heart of redefinition
/// via `set`.
pub proof fn lemma_set_rebinds_in_place(
    frames: Seq<Seq<FuncV>>,
    name: Seq<char>,
    params: AstV,
    body: AstV,
)
    ensures
        (scope_reset(frames, name, params, body) is Some) == (scope_lookup(frames, name) is Some),
        scope_reset(frames, name, params, body) is Some ==> ({
            let r = scope_reset(frames, name, params, body)->Some_0;
            &&& r.len() == frames.len()
            &&& forall|i: int| 0 <= i < frames.len() ==> (#[trigger] r[i]).len() == frames[i].len()
            &&& scope_lookup(r, name) == Some(FuncV { name, params, body })
        }),
    decreases frames.len(),
{
    if frames.len() > 0 {
        lemma_frame_reset_props(frames[0], name, params, body);
        match frame_reset(frames[0], name, params, body) {
            Some(fr) => {
                let r = frames.update(0, fr);
                assert(r.skip(1) =~= frames.skip(1));
                assert(frame_find(fr, name) == Some(FuncV { name, params, body }));
            },
            None => {
                lemma_set_rebinds_in_place(frames.skip(1), name, params, body);
                match scope_reset(frames.skip(1), name, params, body) {
                    Some(rest) => {
                        let r = seq![frames[0]].add(rest);
                        assert(r.skip(1) =~= rest);
                        assert(forall|i: int|
                            1 <= i < r.len() ==> (#[trigger] r[i]).len() == rest[i - 1].len());
                    },
                    None => {},
                }
            },
        }
    }
}


/// Entering a deeper nesting hides nothing: a fresh empty frame on top
/// of the chain leaves every lookup as it was.
pub proof fn lemma_deeper_nesting_sees_bindings(frames: Seq<Seq<FuncV>>, name: Seq<char>)
    ensures
        scope_lookup(seq![Seq::<FuncV>::empty()].add(frames), name) == scope_lookup(frames, name),
{
    let pushed = seq![Seq::<FuncV>::empty()].add(frames);
    assert(pushed[0] =~= Seq::<FuncV>::empty());
    assert(pushed.skip(1) =~= frames);
}

/// A binding lives exactly as long as the frame it went into: once the
/// frame enclosing a definition form is closed, lookups see only what
/// the frames outside it bind.
pub proof fn lemma_closing_bracket_unbinds(frames: Seq<Seq<FuncV>>, f: FuncV, name: Seq<char>)
    requires
        frames.len() > 1,
    ensures
        scope_lookup(spec_insert_outer(frames, f).skip(2), name) == scope_lookup(
            frames.skip(2),
            name,
        ),
{
    assert(spec_insert_outer(frames, f).skip(2) =~= frames.skip(2));
}

/// The chain after a fresh definition: the entry goes into the frame
/// enclosing the innermost one (the definition form's own frame), or
/// into the root frame when none encloses it.
pub open spec fn spec_insert_outer(frames: Seq<Seq<FuncV>>, f: FuncV) -> Seq<Seq<FuncV>> {
    if frames.len() > 1 {
        frames.update(1, frame_insert(frames[1], f))
    } else {
        frames.update(0, frame_insert(frames[0], f))
    }
}

/// A frame with the entry installed: an entry of the same name already
/// in this frame is overwritten in place (names in a frame are unique);
/// otherwise the entry goes in at its sorted position.
pub open spec fn frame_put(fr: Seq<FuncV>, f: FuncV) -> Seq<FuncV> {
    if frame_find(fr, f.name) is Some {
        frame_reset(fr, f.name, f.params, f.body)->Some_0
    } else {
        frame_insert(fr, f)
    }
}

/// The chain after a local binding: the entry is installed — fresh, or
/// overwriting an entry of the same name in that one frame — into the
/// frame enclosing the innermost one, or into the root frame when none
/// encloses it.  Frames further out are never touched.
pub open spec fn spec_put_outer(frames: Seq<Seq<FuncV>>, f: FuncV) -> Seq<Seq<FuncV>> {
    if frames.len() > 1 {
        frames.update(1, frame_put(frames[1], f))
    } else {
        frames.update(0, frame_put(frames[0], f))
    }
}

} // verus!
