//! Data nodes: integer constants and the arithmetic operators.

use crate::rep::{
    append_node1, append_node2, lemma_wf_append1, lemma_wf_append2, wf, Graph, InstrKind, TypeKind,
};
use vstd::prelude::*;

verus! {

/// Constructor namespace for integer-constant nodes.
pub struct Int;

impl Int {
    /// Create an integer-constant node carrying `typ`, which must be an
    /// exact constant. Its single input is a phantom structural edge to the
    /// entry node `ctl`, kept purely so that otherwise-dangling leaves stay
    /// reachable for traversal; it is not a real control dependency and
    /// later passes must not treat it as one.
    pub fn new(g: &mut Graph, ctl: usize, typ: TypeKind) -> (idx: usize)
        requires
            wf(old(g)@),
            ctl < old(g)@.len(),
            old(g)@[ctl as int].kind != InstrKind::Scope,
            typ is Int,
        ensures
            final(g)@ == append_node1(old(g)@, InstrKind::Int, typ, ctl),
            wf(final(g)@),
            idx == old(g)@.len(),
            final(g)@.len() == old(g)@.len() + 1,
    {
        let idx = g.append1(InstrKind::Int, typ, ctl);
        proof {
            lemma_wf_append1(old(g)@, InstrKind::Int, typ, ctl);
        }
        idx
    }
}

/// Constructor namespace for addition nodes.
pub struct Add;

impl Add {
    /// Create an addition node over the operands `x` and `y`.
    pub fn new(g: &mut Graph, x: usize, y: usize) -> (idx: usize)
        requires
            wf(old(g)@),
            x < old(g)@.len(),
            y < old(g)@.len(),
            old(g)@[x as int].kind != InstrKind::Scope,
            old(g)@[y as int].kind != InstrKind::Scope,
        ensures
            final(g)@ == append_node2(old(g)@, InstrKind::Add, TypeKind::Bot, x, y),
            wf(final(g)@),
            idx == old(g)@.len(),
            final(g)@.len() == old(g)@.len() + 1,
    {
        let idx = g.append2(InstrKind::Add, TypeKind::Bot, x, y);
        proof {
            lemma_wf_append2(old(g)@, InstrKind::Add, TypeKind::Bot, x, y);
        }
        idx
    }
}

/// Constructor namespace for subtraction nodes.
pub struct Sub;

impl Sub {
    /// Create a subtraction node; `x` is the minuend, `y` the subtrahend.
    pub fn new(g: &mut Graph, x: usize, y: usize) -> (idx: usize)
        requires
            wf(old(g)@),
            x < old(g)@.len(),
            y < old(g)@.len(),
            old(g)@[x as int].kind != InstrKind::Scope,
            old(g)@[y as int].kind != InstrKind::Scope,
        ensures
            final(g)@ == append_node2(old(g)@, InstrKind::Sub, TypeKind::Bot, x, y),
            wf(final(g)@),
            idx == old(g)@.len(),
            final(g)@.len() == old(g)@.len() + 1,
    {
        let idx = g.append2(InstrKind::Sub, TypeKind::Bot, x, y);
        proof {
            lemma_wf_append2(old(g)@, InstrKind::Sub, TypeKind::Bot, x, y);
        }
        idx
    }
}

/// Constructor namespace for multiplication nodes.
pub struct Mul;

impl Mul {
    /// Create a multiplication node over the operands `x` and `y`.
    pub fn new(g: &mut Graph, x: usize, y: usize) -> (idx: usize)
        requires
            wf(old(g)@),
            x < old(g)@.len(),
            y < old(g)@.len(),
            old(g)@[x as int].kind != InstrKind::Scope,
            old(g)@[y as int].kind != InstrKind::Scope,
        ensures
            final(g)@ == append_node2(old(g)@, InstrKind::Mul, TypeKind::Bot, x, y),
            wf(final(g)@),
            idx == old(g)@.len(),
            final(g)@.len() == old(g)@.len() + 1,
    {
        let idx = g.append2(InstrKind::Mul, TypeKind::Bot, x, y);
        proof {
            lemma_wf_append2(old(g)@, InstrKind::Mul, TypeKind::Bot, x, y);
        }
        idx
    }
}

/// Constructor namespace for division nodes.
pub struct Div;

impl Div {
    /// Create a division node; `x` is the dividend, `y` the divisor.
    pub fn new(g: &mut Graph, x: usize, y: usize) -> (idx: usize)
        requires
            wf(old(g)@),
            x < old(g)@.len(),
            y < old(g)@.len(),
            old(g)@[x as int].kind != InstrKind::Scope,
            old(g)@[y as int].kind != InstrKind::Scope,
        ensures
            final(g)@ == append_node2(old(g)@, InstrKind::Div, TypeKind::Bot, x, y),
            wf(final(g)@),
            idx == old(g)@.len(),
            final(g)@.len() == old(g)@.len() + 1,
    {
        let idx = g.append2(InstrKind::Div, TypeKind::Bot, x, y);
        proof {
            lemma_wf_append2(old(g)@, InstrKind::Div, TypeKind::Bot, x, y);
        }
        idx
    }
}

/// Constructor namespace for negation nodes.
pub struct Neg;

impl Neg {
    /// Create a negation node over the single operand `x`.
    pub fn new(g: &mut Graph, x: usize) -> (idx: usize)
        requires
            wf(old(g)@),
            x < old(g)@.len(),
            old(g)@[x as int].kind != InstrKind::Scope,
        ensures
            final(g)@ == append_node1(old(g)@, InstrKind::Neg, TypeKind::Bot, x),
            wf(final(g)@),
            idx == old(g)@.len(),
            final(g)@.len() == old(g)@.len() + 1,
    {
        let idx = g.append1(InstrKind::Neg, TypeKind::Bot, x);
        proof {
            lemma_wf_append1(old(g)@, InstrKind::Neg, TypeKind::Bot, x);
        }
        idx
    }
}

} // verus!
