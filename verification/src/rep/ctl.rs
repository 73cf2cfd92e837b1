//! Control nodes: the unique entry node and the return node.
//!
//! Control nodes carry a lattice type like every other node (the
//! representation is homogeneous), but it is always `Bot`: they have no
//! scalar value.

use crate::rep::{
    append_node0, append_node2, lemma_wf_append0, lemma_wf_append2, wf, Graph, InstrKind, TypeKind,
};
use vstd::prelude::*;

verus! {

/// Constructor namespace for the entry node of a compilation unit.
pub struct Start;

impl Start {
    /// Create the entry node. It is the first node of its unit and takes no
    /// inputs; every other node is anchored to the graph through it.
    pub fn new(g: &mut Graph) -> (idx: usize)
        requires
            old(g)@.len() == 0,
        ensures
            final(g)@ == append_node0(old(g)@, InstrKind::Start, TypeKind::Bot),
            wf(final(g)@),
            idx == 0,
            final(g)@.len() == 1,
    {
        let idx = g.append0(InstrKind::Start, TypeKind::Bot);
        proof {
            lemma_wf_append0(old(g)@, InstrKind::Start, TypeKind::Bot);
        }
        idx
    }
}

/// Constructor namespace for the return node.
pub struct Return;

impl Return {
    /// Create a return node; its two inputs are the current control node and
    /// the data node being returned, in that order.
    pub fn new(g: &mut Graph, ctl: usize, data: usize) -> (idx: usize)
        requires
            wf(old(g)@),
            ctl < old(g)@.len(),
            data < old(g)@.len(),
            old(g)@[ctl as int].kind != InstrKind::Scope,
            old(g)@[data as int].kind != InstrKind::Scope,
        ensures
            final(g)@ == append_node2(old(g)@, InstrKind::Return, TypeKind::Bot, ctl, data),
            wf(final(g)@),
            idx == old(g)@.len(),
            final(g)@.len() == old(g)@.len() + 1,
    {
        let idx = g.append2(InstrKind::Return, TypeKind::Bot, ctl, data);
        proof {
            lemma_wf_append2(old(g)@, InstrKind::Return, TypeKind::Bot, ctl, data);
        }
        idx
    }
}

} // verus!
