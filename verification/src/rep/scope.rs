//! The lexical-scope resolver.
//!
//! The program scope is a stack of frames (innermost last), each mapping an
//! identifier to the index of a slot in a shared, append-only slot list.
//! The slot list is the input edge list of a dedicated node of kind `Scope`
//! that participates in the graph: binding an expression makes it an input
//! of the scope node, so def-use reasoning covers variables too. Nothing in
//! the language may use a scope node as an operand, so a scope node is
//! guaranteed to have zero outputs.

use crate::rep::{
    append_node0, lemma_wf_append0, lemma_wf_push_in, lemma_wf_set_input, node_ok, push_in, set_in,
    wf, Graph, InstrKind, NodeModel, TypeKind,
};
use vstd::prelude::*;

verus! {

/// Failures of the binding environment.
#[derive(Debug, PartialEq, Eq)]
pub enum ScopeError {
    /// The identifier is already bound in the innermost frame.
    DoubleDefine(String),
    /// No frame binds the identifier.
    NotFound(String),
    /// There is no frame to bind in.
    NoNvExists,
}

/// The model of one frame: bindings from identifier to slot, oldest first.
pub open spec fn frame_view(f: Vec<(String, usize)>) -> Seq<(Seq<char>, usize)> {
    f@.map_values(|b: (String, usize)| (b.0@, b.1))
}

/// The slot bound to `alias` in one frame, if any.
pub open spec fn frame_lookup(f: Seq<(Seq<char>, usize)>, alias: Seq<char>) -> Option<usize>
    decreases f.len(),
{
    if f.len() == 0 {
        None
    } else if f[0].0 == alias {
        Some(f[0].1)
    } else {
        frame_lookup(f.drop_first(), alias)
    }
}

/// The slot bound to `alias`, searching the innermost frame first.
pub open spec fn scope_lookup(fs: Seq<Seq<(Seq<char>, usize)>>, alias: Seq<char>) -> Option<usize>
    decreases fs.len(),
{
    if fs.len() == 0 {
        None
    } else {
        match frame_lookup(fs.last(), alias) {
            Some(slot) => Some(slot),
            None => scope_lookup(fs.drop_last(), alias),
        }
    }
}

/// A frame misses `alias` exactly when no binding in it carries `alias`.
pub proof fn lemma_frame_lookup_none(f: Seq<(Seq<char>, usize)>, alias: Seq<char>)
    ensures
        (frame_lookup(f, alias) is None) <==> (forall|i: int| 0 <= i < f.len() ==> f[i].0
            != alias),
    decreases f.len(),
{
    if f.len() > 0 {
        lemma_frame_lookup_none(f.drop_first(), alias);
        if frame_lookup(f, alias) is None {
            assert forall|i: int| 0 <= i < f.len() implies f[i].0 != alias by {
                if i > 0 {
                    assert(f.drop_first()[i - 1] == f[i]);
                }
            }
        } else {
            if f[0].0 != alias {
                let wi = choose|i: int|
                    0 <= i < f.drop_first().len() && f.drop_first()[i].0 == alias;
                assert(f[wi + 1] == f.drop_first()[wi]);
            }
        }
    }
}

/// The binding environment of one compilation unit.
///
/// `node` is the handle of the scope's own node in the graph; `nvs` is the
/// stack of frames, innermost last.
#[derive(Debug)]
pub struct Scope {
    pub node: usize,
    pub nvs: Vec<Vec<(String, usize)>>,
}

/// The resolver invariant against the graph, over the frame-stack model:
/// `node` is a scope frame node, every bound slot indexes into that node's
/// input list, and an identifier appears at most once per frame.
pub open spec fn frames_inv(fs: Seq<Seq<(Seq<char>, usize)>>, s: Seq<NodeModel>, node: usize) -> bool {
    &&& node < s.len()
    &&& s[node as int].kind is Scope
    &&& forall|f: int, i: int|
        0 <= f < fs.len() && 0 <= i < fs[f].len() ==> (#[trigger] fs[f][i]).1 < s[
            node as int
        ].inputs.len()
    &&& forall|f: int, i: int, j: int|
        0 <= f < fs.len() && 0 <= i < j < fs[f].len() ==> (#[trigger] fs[f][i]).0 != (
        #[trigger] fs[f][j]).0
}

impl Scope {
    /// The model of the frame stack.
    pub open spec fn frames(self) -> Seq<Seq<(Seq<char>, usize)>> {
        self.nvs@.map_values(|f: Vec<(String, usize)>| frame_view(f))
    }

    /// The resolver's invariant against the graph.
    pub open spec fn inv(self, s: Seq<NodeModel>) -> bool {
        frames_inv(self.frames(), s, self.node)
    }

    /// Create a resolver with an empty frame stack; its binding storage is
    /// a fresh node of kind `Scope` in the graph.
    pub fn new(g: &mut Graph) -> (sc: Scope)
        requires
            wf(old(g)@),
            old(g)@.len() >= 1,
        ensures
            final(g)@ == append_node0(old(g)@, InstrKind::Scope, TypeKind::Bot),
            wf(final(g)@),
            sc.node == old(g)@.len(),
            sc.frames() == Seq::<Seq<(Seq<char>, usize)>>::empty(),
            sc.inv(final(g)@),
    {
        let node = g.append0(InstrKind::Scope, TypeKind::Bot);
        proof {
            lemma_wf_append0(old(g)@, InstrKind::Scope, TypeKind::Bot);
        }
        let sc = Scope { node, nvs: Vec::new() };
        proof {
            assert(sc.frames() =~~= Seq::<Seq<(Seq<char>, usize)>>::empty());
        }
        sc
    }

    /// Push a fresh innermost frame on entry to a lexical block.
    pub fn push_nv(&mut self)
        ensures
            final(self).node == old(self).node,
            final(self).frames() == old(self).frames().push(
                Seq::<(Seq<char>, usize)>::empty(),
            ),
    {
        self.nvs.push(Vec::new());
        proof {
            assert(self.frames() =~~= old(self).frames().push(
                Seq::<(Seq<char>, usize)>::empty(),
            ));
        }
    }

    /// Pop the innermost frame on exit from a lexical block; bindings made
    /// in it become unreachable through the scope.
    pub fn pop_nv(&mut self)
        ensures
            final(self).node == old(self).node,
            old(self).frames().len() > 0 ==> final(self).frames() == old(
                self,
            ).frames().drop_last(),
            old(self).frames().len() == 0 ==> final(self).frames() == old(self).frames(),
    {
        self.nvs.pop();
        proof {
            if old(self).frames().len() > 0 {
                assert(self.frames() =~~= old(self).frames().drop_last());
            } else {
                assert(self.frames() =~~= old(self).frames());
            }
        }
    }

    /// The slot bound to `alias`, searching innermost to outermost.
    fn find(&self, alias: &String) -> (r: Option<usize>)
        ensures
            r == scope_lookup(self.frames(), alias@),
    {
        let ghost fs = self.frames();
        proof {
            assert(fs.take(fs.len() as int) =~= fs);
        }
        let mut fi = self.nvs.len();
        while fi > 0
            invariant
                fi <= self.nvs@.len(),
                fs == self.frames(),
                scope_lookup(fs, alias@) == scope_lookup(fs.take(fi as int), alias@),
            decreases fi,
        {
            fi = fi - 1;
            let f = &self.nvs[fi];
            let ghost fv = fs[fi as int];
            proof {
                assert(fv.skip(0) =~= fv);
            }
            let mut bi: usize = 0;
            let n = f.len();
            while bi < n
                invariant
                    bi <= n,
                    n == f@.len(),
                    fv == frame_view(*f),
                    fi < self.nvs@.len(),
                    fs == self.frames(),
                    fv == fs[fi as int],
                    scope_lookup(fs, alias@) == scope_lookup(fs.take(fi as int + 1), alias@),
                    frame_lookup(fv, alias@) == frame_lookup(fv.skip(bi as int), alias@),
                decreases n - bi,
            {
                if f[bi].0 == *alias {
                    proof {
                        assert(fv.skip(bi as int)[0] == fv[bi as int]);
                        assert(frame_lookup(fv, alias@) == Some(fv[bi as int].1));
                        assert(fs.take(fi as int + 1)[fi as int] == fs[fi as int]);
                        assert(fs.take(fi as int + 1).last() == fv);
                        assert(fs.take(fi as int + 1).drop_last() =~= fs.take(fi as int));
                    }
                    return Some(f[bi].1);
                }
                proof {
                    assert(fv.skip(bi as int)[0] == fv[bi as int]);
                    assert(fv.skip(bi as int).drop_first() =~= fv.skip(bi as int + 1));
                }
                bi = bi + 1;
            }
            proof {
                assert(fv.skip(n as int) =~= Seq::<(Seq<char>, usize)>::empty());
                assert(frame_lookup(fv, alias@) is None);
                assert(fs.take(fi as int + 1)[fi as int] == fs[fi as int]);
                assert(fs.take(fi as int + 1).last() == fv);
                assert(fs.take(fi as int + 1).drop_last() =~= fs.take(fi as int));
            }
        }
        proof {
            assert(fs.take(0) =~= Seq::<Seq<(Seq<char>, usize)>>::empty());
        }
        None
    }

    /// Resolve `alias` to its currently bound node, searching the innermost
    /// frame first; fails with `NotFound` when no frame binds it.
    pub fn read(&self, g: &Graph, alias: String) -> (r: Result<usize, ScopeError>)
        requires
            self.inv(g@),
        ensures
            match scope_lookup(self.frames(), alias@) {
                Some(slot) => r == Ok::<usize, ScopeError>(
                    g@[self.node as int].inputs[slot as int],
                ),
                None => (r matches Err(ScopeError::NotFound(a)) && a@ == alias@),
            },
    {
        proof {
            lemma_scope_lookup_in_range(*self, g@, alias@);
        }
        match self.find(&alias) {
            Some(slot) => Ok(g.nodes[self.node].inputs[slot]),
            None => Err(ScopeError::NotFound(alias)),
        }
    }

    /// Rebind `alias` to `expr` in whichever frame currently binds it,
    /// searching the innermost frame first (this models assignment). The
    /// slot is mutated in place, so references taken earlier to the node it
    /// held stay valid; the old target loses the matching back-edge and
    /// `expr` gains one. Fails with `NotFound` when no frame binds `alias`.
    pub fn update(&self, g: &mut Graph, alias: String, expr: usize) -> (r: Result<
        usize,
        ScopeError,
    >)
        requires
            self.inv(old(g)@),
            wf(old(g)@),
            expr < old(g)@.len(),
            old(g)@[expr as int].kind != InstrKind::Scope,
        ensures
            match scope_lookup(self.frames(), alias@) {
                Some(slot) => {
                    &&& r == Ok::<usize, ScopeError>(expr)
                    &&& final(g)@ == set_in(old(g)@, self.node, slot as int, expr)
                    &&& wf(final(g)@)
                    &&& self.inv(final(g)@)
                },
                None => {
                    &&& (r matches Err(ScopeError::NotFound(a)) && a@ == alias@)
                    &&& final(g)@ == old(g)@
                },
            },
    {
        proof {
            lemma_scope_lookup_in_range(*self, old(g)@, alias@);
        }
        match self.find(&alias) {
            Some(slot) => {
                proof {
                    assert(node_ok(old(g)@, self.node as int));
                    lemma_wf_set_input(old(g)@, self.node, slot as int, expr);
                }
                g.set_input(self.node, slot, expr);
                proof {
                    assert(g@[self.node as int].inputs.len() == old(g)@[
                        self.node as int
                    ].inputs.len());
                    assert(g@[self.node as int].kind == old(g)@[self.node as int].kind);
                }
                Ok(expr)
            },
            None => Err(ScopeError::NotFound(alias)),
        }
    }

    /// Bind `alias` to `expr` in the innermost frame. Fails with
    /// `DoubleDefine` when that frame already binds `alias` (shadowing an
    /// outer frame is permitted, re-declaration in the same frame is not),
    /// and with `NoNvExists` when no frame is open.
    pub fn write(&mut self, g: &mut Graph, alias: String, expr: usize) -> (r: Result<
        (),
        ScopeError,
    >)
        requires
            old(self).inv(old(g)@),
            wf(old(g)@),
            expr < old(g)@.len(),
            old(g)@[expr as int].kind != InstrKind::Scope,
        ensures
            final(self).node == old(self).node,
            old(self).frames().len() == 0 ==> {
                &&& r matches Err(ScopeError::NoNvExists)
                &&& final(g)@ == old(g)@
                &&& final(self).frames() == old(self).frames()
            },
            old(self).frames().len() > 0 && frame_lookup(old(self).frames().last(), alias@)
                is Some ==> {
                &&& (r matches Err(ScopeError::DoubleDefine(a)) && a@ == alias@)
                &&& final(g)@ == old(g)@
                &&& final(self).frames() == old(self).frames()
            },
            old(self).frames().len() > 0 && frame_lookup(old(self).frames().last(), alias@)
                is None ==> {
                &&& r is Ok
                &&& final(g)@ == push_in(old(g)@, old(self).node, expr)
                &&& wf(final(g)@)
                &&& final(self).frames() == old(self).frames().update(
                    old(self).frames().len() - 1,
                    old(self).frames().last().push(
                        (alias@, old(g)@[old(self).node as int].inputs.len() as usize),
                    ),
                )
                &&& final(self).inv(final(g)@)
            },
    {
        if self.nvs.len() == 0 {
            return Err(ScopeError::NoNvExists);
        }
        let fi = self.nvs.len() - 1;
        let ghost fv = self.frames()[fi as int];
        proof {
            assert(fv.skip(0) =~= fv);
        }
        let mut bi: usize = 0;
        let n = self.nvs[fi].len();
        while bi < n
            invariant
                bi <= n,
                self.node == old(self).node,
                self.nvs@ == old(self).nvs@,
                g@ == old(g)@,
                fi == self.nvs@.len() - 1,
                fi < self.nvs@.len(),
                n == self.nvs@[fi as int]@.len(),
                fv == frame_view(self.nvs@[fi as int]),
                fv == self.frames().last(),
                frame_lookup(fv, alias@) == frame_lookup(fv.skip(bi as int), alias@),
            decreases n - bi,
        {
            if self.nvs[fi][bi].0 == alias {
                proof {
                    assert(fv.skip(bi as int)[0] == fv[bi as int]);
                }
                return Err(ScopeError::DoubleDefine(alias));
            }
            proof {
                assert(fv.skip(bi as int)[0] == fv[bi as int]);
                assert(fv.skip(bi as int).drop_first() =~= fv.skip(bi as int + 1));
            }
            bi = bi + 1;
        }
        proof {
            assert(fv.skip(n as int) =~= Seq::<(Seq<char>, usize)>::empty());
            assert(frame_lookup(fv, alias@) is None);
            lemma_frame_lookup_none(fv, alias@);
            assert(node_ok(old(g)@, self.node as int));
        }
        let slot = g.nodes[self.node].inputs.len();
        proof {
            lemma_wf_push_in(old(g)@, self.node, expr);
        }
        g.add_input(self.node, expr);
        self.nvs[fi].push((alias, slot));
        proof {
            assert(self.frames() =~~= old(self).frames().update(
                old(self).frames().len() - 1,
                old(self).frames().last().push((alias@, slot)),
            ));
        }
        Ok(())
    }
}

/// A successful lookup yields a slot inside the scope node's input list.
pub proof fn lemma_scope_lookup_in_range(sc: Scope, s: Seq<NodeModel>, alias: Seq<char>)
    requires
        sc.inv(s),
    ensures
        scope_lookup(sc.frames(), alias) matches Some(slot) ==> slot < s[sc.node as int].inputs.len(),
{
    lemma_scope_lookup_in_frames(sc.frames(), alias, s[sc.node as int].inputs.len() as int);
}

/// Helper: a successful lookup returns a slot some frame holds.
proof fn lemma_scope_lookup_in_frames(fs: Seq<Seq<(Seq<char>, usize)>>, alias: Seq<char>, bound: int)
    requires
        forall|f: int, i: int|
            0 <= f < fs.len() && 0 <= i < fs[f].len() ==> (#[trigger] fs[f][i]).1 < bound,
    ensures
        scope_lookup(fs, alias) matches Some(slot) ==> slot < bound,
    decreases fs.len(),
{
    if fs.len() > 0 {
        lemma_frame_lookup_found(fs.last(), alias, bound, fs.len() - 1, fs);
        lemma_scope_lookup_in_frames(fs.drop_last(), alias, bound);
    }
}

/// Helper: a binding found in one frame respects that frame's slot bound.
proof fn lemma_frame_lookup_found(
    f: Seq<(Seq<char>, usize)>,
    alias: Seq<char>,
    bound: int,
    fidx: int,
    fs: Seq<Seq<(Seq<char>, usize)>>,
)
    requires
        0 <= fidx < fs.len(),
        f == fs[fidx],
        forall|g: int, i: int|
            0 <= g < fs.len() && 0 <= i < fs[g].len() ==> (#[trigger] fs[g][i]).1 < bound,
    ensures
        frame_lookup(f, alias) matches Some(slot) ==> slot < bound,
{
    lemma_frame_lookup_member(f, alias);
    if frame_lookup(f, alias) is Some {
        let wi = choose|i: int|
            0 <= i < f.len() && f[i].0 == alias && f[i].1 == frame_lookup(f, alias).unwrap();
        assert(fs[fidx][wi].1 < bound);
    }
}

/// A successful frame lookup names a binding the frame actually holds.
pub proof fn lemma_frame_lookup_member(f: Seq<(Seq<char>, usize)>, alias: Seq<char>)
    ensures
        frame_lookup(f, alias) matches Some(slot) ==> exists|i: int|
            0 <= i < f.len() && f[i].0 == alias && f[i].1 == slot,
    decreases f.len(),
{
    if f.len() > 0 && f[0].0 != alias {
        lemma_frame_lookup_member(f.drop_first(), alias);
        if frame_lookup(f, alias) is Some {
            let wi = choose|i: int|
                0 <= i < f.drop_first().len() && f.drop_first()[i].0 == alias && f.drop_first()[i].1
                    == frame_lookup(f.drop_first(), alias).unwrap();
            assert(f[wi + 1] == f.drop_first()[wi]);
        }
    }
}

} // verus!
