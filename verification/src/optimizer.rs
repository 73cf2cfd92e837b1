//! Lattice evaluation and the local constant-folding ("peephole") rewrite.
//!
//! `eval_type` computes the lattice value of one node from the current types
//! of its direct operands — a one-shot structural check, not a global
//! fixpoint pass. `peephole` is invoked immediately after constructing every
//! arithmetic node: when the node's value is a known constant it replaces
//! the node by a brand-new integer-constant leaf and eagerly cleans up the
//! back-edges the node had registered on its operands. A fold whose
//! mathematical result does not fit the 128-bit constant representation is
//! conservatively given `Bot` and left unfolded.

use crate::parser::{ErrModel, ParseError};
use crate::rep::data::Int;
use crate::rep::{
    append_node1, append_node2, drop_node1, drop_node2, lemma_drop_append2, lemma_wf_drop_node1,
    lemma_wf_drop_node2, node_ok, wf, Graph, InstrKind, NodeModel, TypeKind,
};
use vstd::prelude::*;

verus! {

/// The folded type of an addition.
pub open spec fn fold_add(a: i128, b: i128) -> TypeKind {
    match a.checked_add(b) {
        Some(v) => TypeKind::Int(v),
        None => TypeKind::Bot,
    }
}

/// The folded type of a subtraction.
pub open spec fn fold_sub(a: i128, b: i128) -> TypeKind {
    match a.checked_sub(b) {
        Some(v) => TypeKind::Int(v),
        None => TypeKind::Bot,
    }
}

/// The folded type of a multiplication.
pub open spec fn fold_mul(a: i128, b: i128) -> TypeKind {
    match a.checked_mul(b) {
        Some(v) => TypeKind::Int(v),
        None => TypeKind::Bot,
    }
}

/// The folded type of a division with a non-zero divisor (Rust division
/// truncates toward zero; the one overflowing quotient is given `Bot`).
pub open spec fn fold_div(a: i128, b: i128) -> TypeKind {
    match a.checked_div(b) {
        Some(v) => TypeKind::Int(v),
        None => TypeKind::Bot,
    }
}

/// The folded type of a negation.
pub open spec fn fold_neg(a: i128) -> TypeKind {
    match (0i128).checked_sub(a) {
        Some(v) => TypeKind::Int(v),
        None => TypeKind::Bot,
    }
}

/// The lattice value of node `n`, evaluated from the current types of its
/// direct operands. Control nodes and scope frames have no scalar value
/// (`Bot`); a constant leaf yields its own type; an arithmetic node yields
/// a constant exactly when all its operands are constants, except that a
/// constant division by zero is a compile-time error rather than a type.
pub open spec fn eval_model(s: Seq<NodeModel>, n: int) -> Result<TypeKind, ErrModel> {
    let nd = s[n];
    match nd.kind {
        InstrKind::Int => Ok(nd.typ),
        InstrKind::Add => {
            let tx = s[nd.inputs[0] as int].typ;
            let ty = s[nd.inputs[1] as int].typ;
            if tx is Int && ty is Int {
                Ok(fold_add(tx->Int_0, ty->Int_0))
            } else {
                Ok(TypeKind::Bot)
            }
        },
        InstrKind::Sub => {
            let tx = s[nd.inputs[0] as int].typ;
            let ty = s[nd.inputs[1] as int].typ;
            if tx is Int && ty is Int {
                Ok(fold_sub(tx->Int_0, ty->Int_0))
            } else {
                Ok(TypeKind::Bot)
            }
        },
        InstrKind::Mul => {
            let tx = s[nd.inputs[0] as int].typ;
            let ty = s[nd.inputs[1] as int].typ;
            if tx is Int && ty is Int {
                Ok(fold_mul(tx->Int_0, ty->Int_0))
            } else {
                Ok(TypeKind::Bot)
            }
        },
        InstrKind::Div => {
            let tx = s[nd.inputs[0] as int].typ;
            let ty = s[nd.inputs[1] as int].typ;
            if tx is Int && ty is Int {
                if ty->Int_0 == 0 {
                    Err(ErrModel::DivisionByZero)
                } else {
                    Ok(fold_div(tx->Int_0, ty->Int_0))
                }
            } else {
                Ok(TypeKind::Bot)
            }
        },
        InstrKind::Neg => {
            let tx = s[nd.inputs[0] as int].typ;
            if tx is Int {
                Ok(fold_neg(tx->Int_0))
            } else {
                Ok(TypeKind::Bot)
            }
        },
        _ => Ok(TypeKind::Bot),
    }
}

/// Evaluate the lattice value of node `n` of the graph.
pub fn eval_type(g: &Graph, n: usize) -> (r: Result<TypeKind, ParseError>)
    requires
        wf(g@),
        n < g@.len(),
    ensures
        match eval_model(g@, n as int) {
            Ok(t) => r == Ok::<TypeKind, ParseError>(t),
            Err(e) => r == Err::<TypeKind, ParseError>(ParseError::DivisionByZero),
        },
        r is Err ==> eval_model(g@, n as int) == Err::<TypeKind, ErrModel>(
            ErrModel::DivisionByZero,
        ),
{
    proof {
        assert(node_ok(g@, n as int));
    }
    match g.nodes[n].kind {
        InstrKind::Int => Ok(g.nodes[n].typ),
        InstrKind::Add => {
            let x = g.nodes[n].inputs[0];
            let y = g.nodes[n].inputs[1];
            match (g.nodes[x].typ, g.nodes[y].typ) {
                (TypeKind::Int(a), TypeKind::Int(b)) => match a.checked_add(b) {
                    Some(v) => Ok(TypeKind::Int(v)),
                    None => Ok(TypeKind::Bot),
                },
                _ => Ok(TypeKind::Bot),
            }
        },
        InstrKind::Sub => {
            let x = g.nodes[n].inputs[0];
            let y = g.nodes[n].inputs[1];
            match (g.nodes[x].typ, g.nodes[y].typ) {
                (TypeKind::Int(a), TypeKind::Int(b)) => match a.checked_sub(b) {
                    Some(v) => Ok(TypeKind::Int(v)),
                    None => Ok(TypeKind::Bot),
                },
                _ => Ok(TypeKind::Bot),
            }
        },
        InstrKind::Mul => {
            let x = g.nodes[n].inputs[0];
            let y = g.nodes[n].inputs[1];
            match (g.nodes[x].typ, g.nodes[y].typ) {
                (TypeKind::Int(a), TypeKind::Int(b)) => match a.checked_mul(b) {
                    Some(v) => Ok(TypeKind::Int(v)),
                    None => Ok(TypeKind::Bot),
                },
                _ => Ok(TypeKind::Bot),
            }
        },
        InstrKind::Div => {
            let x = g.nodes[n].inputs[0];
            let y = g.nodes[n].inputs[1];
            match (g.nodes[x].typ, g.nodes[y].typ) {
                (TypeKind::Int(a), TypeKind::Int(b)) => {
                    if b == 0 {
                        Err(ParseError::DivisionByZero)
                    } else {
                        match a.checked_div(b) {
                            Some(v) => Ok(TypeKind::Int(v)),
                            None => Ok(TypeKind::Bot),
                        }
                    }
                },
                _ => Ok(TypeKind::Bot),
            }
        },
        InstrKind::Neg => {
            let x = g.nodes[n].inputs[0];
            match g.nodes[x].typ {
                TypeKind::Int(a) => match (0i128).checked_sub(a) {
                    Some(v) => Ok(TypeKind::Int(v)),
                    None => Ok(TypeKind::Bot),
                },
                _ => Ok(TypeKind::Bot),
            }
        },
        _ => Ok(TypeKind::Bot),
    }
}

/// The graph after the peephole rewrite of node `n` (which must be the
/// newest, not yet used node), with the handle of the surviving node:
/// a constant leaf survives unchanged; an arithmetic node whose value is a
/// known constant is dropped — back-edges cleaned up eagerly — and replaced
/// by a fresh constant leaf anchored on `start`; everything else survives
/// unchanged. A constant division by zero aborts compilation instead.
pub open spec fn peephole_model(s: Seq<NodeModel>, n: usize, start: usize) -> Result<
    (Seq<NodeModel>, usize),
    ErrModel,
> {
    if s[n as int].kind is Int {
        Ok((s, n))
    } else {
        match eval_model(s, n as int) {
            Err(e) => Err(e),
            Ok(t) => if t is Int {
                let base = if s[n as int].kind is Neg {
                    drop_node1(s)
                } else {
                    drop_node2(s)
                };
                Ok((append_node1(base, InstrKind::Int, t, start), n))
            } else {
                Ok((s, n))
            },
        }
    }
}

/// Fold node `n` — the newest node, which nothing uses yet — in place.
///
/// On success the returned handle names the surviving node: `n` itself,
/// or the constant leaf that replaced it (which reuses the arena slot the
/// dropped node vacated, so it is `n` as well).
pub fn peephole(g: &mut Graph, n: usize, start: usize) -> (r: Result<usize, ParseError>)
    requires
        wf(old(g)@),
        n < old(g)@.len(),
        n + 1 == old(g)@.len(),
        old(g)@[n as int].outputs.len() == 0,
        start < old(g)@.len(),
        old(g)@[start as int].kind is Start,
    ensures
        match peephole_model(old(g)@, n, start) {
            Ok((s2, r2)) => {
                &&& r == Ok::<usize, ParseError>(r2)
                &&& final(g)@ == s2
                &&& wf(final(g)@)
            },
            Err(e) => {
                &&& r == Err::<usize, ParseError>(ParseError::DivisionByZero)
                &&& final(g)@ == old(g)@
            },
        },
        r matches Ok(idx) ==> idx < final(g)@.len(),
        old(g)@[n as int].kind != InstrKind::Scope ==> (r matches Ok(idx) ==> final(g)@[
            idx as int
        ].kind != InstrKind::Scope),
        final(g)@.len() == old(g)@.len(),
        forall|i: int|
            0 <= i < old(g)@.len() && i != n ==> #[trigger] final(g)@[i].kind == old(g)@[i].kind
                && final(g)@[i].inputs == old(g)@[i].inputs,
{
    proof {
        vstd::std_specs::vec::axiom_spec_len(&g.nodes);
        assert(old(g)@.len() <= usize::MAX);
        assert(node_ok(old(g)@, n as int));
        assert(node_ok(old(g)@, start as int));
    }
    let kind = g.nodes[n].kind;
    match kind {
        InstrKind::Int => Ok(n),
        _ => {
            let t = match eval_type(g, n) {
                Ok(t) => t,
                Err(e) => {
                    return Err(e);
                },
            };
            if t.is_constant() {
                match kind {
                    InstrKind::Neg => {
                        proof {
                            lemma_wf_drop_node1(old(g)@);
                        }
                        let x = g.nodes[n].inputs[0];
                        g.remove_output(x, n);
                        g.pop_last();
                        proof {
                            assert(g@ == drop_node1(old(g)@));
                        }
                    },
                    InstrKind::Add | InstrKind::Sub | InstrKind::Mul | InstrKind::Div => {
                        proof {
                            lemma_wf_drop_node2(old(g)@);
                        }
                        let x = g.nodes[n].inputs[0];
                        let y = g.nodes[n].inputs[1];
                        g.remove_output(x, n);
                        g.remove_output(y, n);
                        g.pop_last();
                        proof {
                            assert(g@ == drop_node2(old(g)@));
                        }
                    },
                    _ => {
                        proof {
                            assert(false);
                        }
                    },
                }
                proof {
                    assert(g@[start as int].kind == old(g)@[start as int].kind);
                }
                let idx = Int::new(g, start, t);
                proof {
                    assert(idx == n);
                    assert(g@[idx as int].kind == InstrKind::Int);
                    assert forall|i: int| 0 <= i < old(g)@.len() && i != n implies #[trigger] g@[
                        i
                    ].kind == old(g)@[i].kind && g@[i].inputs == old(g)@[i].inputs by {}
                }
                Ok(idx)
            } else {
                Ok(n)
            }
        },
    }
}

/// Law: the peephole rewrite is idempotent. A constant leaf — in
/// particular the folded constant that a first invocation produced —
/// passes through unchanged, and a node the first invocation left alone is
/// left alone again.
pub proof fn lemma_peephole_idempotent(s: Seq<NodeModel>, n: usize, start: usize)
    requires
        wf(s),
        n < s.len(),
        n + 1 == s.len(),
        s.len() <= usize::MAX,
        s[n as int].outputs.len() == 0,
        start < s.len(),
        s[start as int].kind is Start,
    ensures
        s[n as int].kind is Int ==> peephole_model(s, n, start) == Ok::<
            (Seq<NodeModel>, usize),
            ErrModel,
        >((s, n)),
        peephole_model(s, n, start) matches Ok((s2, r2)) ==> peephole_model(s2, r2, start) == Ok::<
            (Seq<NodeModel>, usize),
            ErrModel,
        >((s2, r2)),
{
    assert(node_ok(s, n as int));
    assert(node_ok(s, start as int));
    if !(s[n as int].kind is Int) {
        match eval_model(s, n as int) {
            Err(_) => {},
            Ok(t) => {
                if t is Int {
                    if s[n as int].kind is Neg {
                        lemma_wf_drop_node1(s);
                    } else {
                        lemma_wf_drop_node2(s);
                    }
                    let base = if s[n as int].kind is Neg {
                        drop_node1(s)
                    } else {
                        drop_node2(s)
                    };
                    assert(base.len() == n);
                    let s2 = append_node1(base, InstrKind::Int, t, start);
                    assert(s2[n as int].kind is Int);
                } else {
                }
            },
        }
    }
}


/// The folded type of one two-operand arithmetic kind over two constants.
pub open spec fn fold_of(kind: InstrKind, a: i128, b: i128) -> TypeKind {
    match kind {
        InstrKind::Add => fold_add(a, b),
        InstrKind::Sub => fold_sub(a, b),
        InstrKind::Mul => fold_mul(a, b),
        InstrKind::Div => fold_div(a, b),
        _ => TypeKind::Bot,
    }
}

/// Law: constant folding is mandatory at construction time. Building an
/// arithmetic node over two constant leaves and rewriting it at once — as
/// the graph builder does with every arithmetic node — leaves the graph
/// exactly as if one fresh constant leaf carrying the folded value had
/// been created instead: the arithmetic node does not survive, and the
/// eager cleanup removes exactly the back-edges its construction added.
pub proof fn lemma_fold_constants(
    s: Seq<NodeModel>,
    kind: InstrKind,
    x: usize,
    y: usize,
    start: usize,
)
    requires
        wf(s),
        s.len() <= usize::MAX,
        x < s.len(),
        y < s.len(),
        s[x as int].kind is Int,
        s[y as int].kind is Int,
        kind == InstrKind::Add || kind == InstrKind::Sub || kind == InstrKind::Mul || kind
            == InstrKind::Div,
        kind is Div ==> s[y as int].typ->Int_0 != 0,
        fold_of(kind, s[x as int].typ->Int_0, s[y as int].typ->Int_0) is Int,
    ensures
        peephole_model(append_node2(s, kind, TypeKind::Bot, x, y), s.len() as usize, start)
            == Ok::<(Seq<NodeModel>, usize), ErrModel>(
            (
                append_node1(
                    s,
                    InstrKind::Int,
                    fold_of(kind, s[x as int].typ->Int_0, s[y as int].typ->Int_0),
                    start,
                ),
                s.len() as usize,
            ),
        ),
{
    let n = s.len() as usize;
    let a = s[x as int].typ->Int_0;
    let b = s[y as int].typ->Int_0;
    let s1 = append_node2(s, kind, TypeKind::Bot, x, y);
    assert(node_ok(s, x as int));
    assert(node_ok(s, y as int));
    assert(s1[n as int].inputs =~= seq![x, y]);
    assert(s1[x as int].typ == s[x as int].typ);
    assert(s1[y as int].typ == s[y as int].typ);
    assert(eval_model(s1, n as int) == Ok::<TypeKind, ErrModel>(fold_of(kind, a, b)));
    lemma_drop_append2(s, kind, TypeKind::Bot, x, y);
    assert(drop_node2(s1) == s);
}

} // verus!
