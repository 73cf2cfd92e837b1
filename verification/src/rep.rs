//! The unified instruction graph ("sea of nodes") and its invariants.
//!
//! Nodes live in a growable arena and are addressed by their index, which
//! doubles as the node's identifier: identifiers are therefore unique and
//! deterministic per compilation unit, and two units never share state.
//! Each node keeps an ordered sequence of input edges (its operands) and an
//! unordered collection of output edges (back-references to every user).
//! The two edge collections are kept symmetric at all times: whenever an
//! input edge is added, removed or replaced, the matching back-edge on the
//! target node is updated in the same operation.

pub mod ctl;
pub mod data;
pub mod scope;

use vstd::prelude::*;

verus! {

/// A value of the flat type lattice attached to every node.
///
/// `Top` is the optimistic "not yet constrained" element, `Bot` the
/// conservative "not a known single value" element, `Simple` a placeholder
/// for a non-constant scalar, and `Int(v)` an exact integer constant.
/// Only `Int(v)` counts as a constant: `Top` promises a value that no
/// analysis has computed yet, so folding on it would be unsound.
#[derive(Debug, Clone, Copy, PartialEq, Eq, Structural)]
pub enum TypeKind {
    Bot,
    Top,
    Simple,
    Int(i128),
}

impl TypeKind {
    /// True exactly for a known integer constant.
    pub fn is_constant(&self) -> (r: bool)
        ensures
            r == (*self is Int),
    {
        match self {
            TypeKind::Int(_) => true,
            _ => false,
        }
    }
}

/// The kind tag of a node in the graph.
#[derive(Debug, Clone, Copy, PartialEq, Eq, Structural)]
pub enum InstrKind {
    Start,
    Return,
    Int,
    Add,
    Sub,
    Mul,
    Div,
    Neg,
    Scope,
}

/// One instruction node of the graph.
///
/// `inputs` holds the handles of the operands, in order (order matters:
/// subtraction is not commutative). `outputs` holds one handle per use of
/// this node as an input of another node; it is maintained as the exact
/// multiset mirror of the input edges and never extends a node's life.
#[derive(Debug)]
pub struct Instr {
    pub kind: InstrKind,
    pub typ: TypeKind,
    pub inputs: Vec<usize>,
    pub outputs: Vec<usize>,
}

/// The mathematical model of one node.
#[verifier::ext_equal]
pub ghost struct NodeModel {
    pub kind: InstrKind,
    pub typ: TypeKind,
    pub inputs: Seq<usize>,
    pub outputs: Seq<usize>,
}

impl View for Instr {
    type V = NodeModel;

    open spec fn view(&self) -> NodeModel {
        NodeModel {
            kind: self.kind,
            typ: self.typ,
            inputs: self.inputs@,
            outputs: self.outputs@,
        }
    }
}

/// The instruction arena of one compilation unit.
#[derive(Debug)]
pub struct Graph {
    pub nodes: Vec<Instr>,
}

impl View for Graph {
    type V = Seq<NodeModel>;

    open spec fn view(&self) -> Seq<NodeModel> {
        self.nodes@.map_values(|n: Instr| n@)
    }
}

/// How many times `x` occurs in `s`.
pub open spec fn occ(s: Seq<usize>, x: usize) -> nat {
    s.to_multiset().count(x)
}

pub proof fn lemma_occ_empty(x: usize)
    ensures
        occ(Seq::empty(), x) == 0,
{
    broadcast use vstd::seq_lib::group_to_multiset_ensures;
    broadcast use vstd::multiset::group_multiset_axioms;

    assert(Seq::<usize>::empty().to_multiset().len() == 0);
}

pub proof fn lemma_occ_push(s: Seq<usize>, a: usize, x: usize)
    ensures
        occ(s.push(a), x) == occ(s, x) + (if a == x {
            1nat
        } else {
            0nat
        }),
{
    broadcast use vstd::seq_lib::group_to_multiset_ensures;
    broadcast use vstd::multiset::group_multiset_axioms;

    assert(s.push(a).to_multiset() =~= s.to_multiset().insert(a));
}

pub proof fn lemma_occ_remove(s: Seq<usize>, i: int, x: usize)
    requires
        0 <= i < s.len(),
    ensures
        occ(s, x) == occ(s.remove(i), x) + (if s[i] == x {
            1nat
        } else {
            0nat
        }),
{
    broadcast use vstd::seq_lib::group_to_multiset_ensures;
    broadcast use vstd::multiset::group_multiset_axioms;

    assert(s.contains(s[i]));
    assert(s.remove(i).to_multiset() =~= s.to_multiset().remove(s[i]));
}

pub proof fn lemma_occ_update(s: Seq<usize>, i: int, v: usize, x: usize)
    requires
        0 <= i < s.len(),
    ensures
        occ(s.update(i, v), x) + (if s[i] == x {
            1nat
        } else {
            0nat
        }) == occ(s, x) + (if v == x {
            1nat
        } else {
            0nat
        }),
{
    broadcast use vstd::seq_lib::group_to_multiset_ensures;
    broadcast use vstd::multiset::group_multiset_axioms;

    assert(s.contains(s[i]));
    vstd::seq_lib::to_multiset_update(s, i, v);
}

pub proof fn lemma_occ_zero(s: Seq<usize>, x: usize)
    ensures
        (occ(s, x) == 0) <==> (forall|j: int| 0 <= j < s.len() ==> s[j] != x),
{
    broadcast use vstd::seq_lib::group_to_multiset_ensures;
    broadcast use vstd::multiset::group_multiset_axioms;

    assert(s.contains(x) <==> s.to_multiset().count(x) > 0);
}

pub proof fn lemma_occ_pair(x: usize, y: usize, t: usize)
    ensures
        occ(seq![x, y], t) == (if x == t {
            1nat
        } else {
            0nat
        }) + (if y == t {
            1nat
        } else {
            0nat
        }),
{
    lemma_occ_empty(t);
    lemma_occ_push(Seq::empty(), x, t);
    lemma_occ_push(Seq::empty().push(x), y, t);
    assert(seq![x, y] =~= Seq::empty().push(x).push(y));
}

pub proof fn lemma_occ_single(x: usize, t: usize)
    ensures
        occ(seq![x], t) == (if x == t {
            1nat
        } else {
            0nat
        }),
{
    lemma_occ_empty(t);
    lemma_occ_push(Seq::empty(), x, t);
    assert(seq![x] =~= Seq::empty().push(x));
}

/// Every edge handle of node `i` points into the arena.
pub open spec fn handles_ok(s: Seq<NodeModel>, i: int) -> bool {
    &&& forall|j: int| 0 <= j < s[i].inputs.len() ==> s[i].inputs[j] < s.len()
    &&& forall|j: int| 0 <= j < s[i].outputs.len() ==> s[i].outputs[j] < s.len()
}

/// The number of operands each node kind takes. `Start` is the sole leaf;
/// an integer constant's single input is the phantom anchor edge to the
/// entry node; a scope frame node binds any number of expressions.
pub open spec fn kind_arity_ok(k: InstrKind, n: nat) -> bool {
    match k {
        InstrKind::Start => n == 0,
        InstrKind::Return => n == 2,
        InstrKind::Int => n == 1,
        InstrKind::Add => n == 2,
        InstrKind::Sub => n == 2,
        InstrKind::Mul => n == 2,
        InstrKind::Div => n == 2,
        InstrKind::Neg => n == 1,
        InstrKind::Scope => true,
    }
}

/// Local well-formedness of node `i`: handles in range, the arity of its
/// kind, an integer type exactly on constant nodes, no uses of a scope
/// node as an operand, and a unique entry node at index 0.
pub open spec fn node_ok(s: Seq<NodeModel>, i: int) -> bool {
    &&& handles_ok(s, i)
    &&& kind_arity_ok(s[i].kind, s[i].inputs.len())
    &&& (s[i].kind is Int ==> s[i].typ is Int)
    &&& (!(s[i].kind is Int) ==> s[i].typ == TypeKind::Bot)
    &&& (s[i].kind is Scope ==> s[i].outputs.len() == 0)
    &&& (s[i].kind is Start <==> i == 0)
}

/// The def-use edges are symmetric as multisets: node `t` occurs among the
/// inputs of node `u` exactly as often as `u` occurs among the outputs of
/// `t`.
pub open spec fn edges_sym(s: Seq<NodeModel>) -> bool {
    forall|t: usize, u: usize|
        t < s.len() && u < s.len() ==> #[trigger] occ(s[u as int].inputs, t) == occ(
            s[t as int].outputs,
            u,
        )
}

/// Well-formedness of the whole graph.
pub open spec fn wf(s: Seq<NodeModel>) -> bool {
    &&& forall|i: int| 0 <= i < s.len() ==> #[trigger] node_ok(s, i)
    &&& edges_sym(s)
}

/// A fresh node with no uses yet.
pub open spec fn mk_node(kind: InstrKind, typ: TypeKind, inputs: Seq<usize>) -> NodeModel {
    NodeModel { kind, typ, inputs, outputs: Seq::empty() }
}

/// `s` with `u` registered as one more user of node `t`.
pub open spec fn push_out(s: Seq<NodeModel>, t: usize, u: usize) -> Seq<NodeModel> {
    s.update(t as int, NodeModel { outputs: s[t as int].outputs.push(u), ..s[t as int] })
}

/// `s` with the first occurrence of user `u` removed from the outputs of
/// node `t`.
pub open spec fn remove_out(s: Seq<NodeModel>, t: usize, u: usize) -> Seq<NodeModel> {
    s.update(t as int, NodeModel { outputs: s[t as int].outputs.remove_value(u), ..s[t as int] })
}

/// `s` extended with a node that has no operands.
pub open spec fn append_node0(s: Seq<NodeModel>, kind: InstrKind, typ: TypeKind) -> Seq<
    NodeModel,
> {
    s.push(mk_node(kind, typ, Seq::empty()))
}

/// `s` extended with a one-operand node, the matching back-edge included.
pub open spec fn append_node1(s: Seq<NodeModel>, kind: InstrKind, typ: TypeKind, x: usize) -> Seq<
    NodeModel,
> {
    push_out(s.push(mk_node(kind, typ, seq![x])), x, s.len() as usize)
}

/// `s` extended with a two-operand node, both back-edges included.
pub open spec fn append_node2(
    s: Seq<NodeModel>,
    kind: InstrKind,
    typ: TypeKind,
    x: usize,
    y: usize,
) -> Seq<NodeModel> {
    push_out(
        push_out(s.push(mk_node(kind, typ, seq![x, y])), x, s.len() as usize),
        y,
        s.len() as usize,
    )
}

/// `s` with operand slot `j` of node `t` redirected from its old target to
/// `v`: the old target loses one back-edge, `v` gains one.
pub open spec fn set_in(s: Seq<NodeModel>, t: usize, j: int, v: usize) -> Seq<NodeModel> {
    let oc = s[t as int].inputs[j];
    let s1 = s.update(t as int, NodeModel { inputs: s[t as int].inputs.update(j, v), ..s[t as int] });
    push_out(remove_out(s1, oc, t), v, t)
}

pub proof fn lemma_occ_absent(s: Seq<usize>, x: usize)
    requires
        forall|j: int| 0 <= j < s.len() ==> s[j] != x,
    ensures
        occ(s, x) == 0,
{
    lemma_occ_zero(s, x);
}

/// Appending a leaf node preserves well-formedness: the entry node may only
/// stand first, and a scope frame node never stands first.
pub proof fn lemma_wf_append0(s: Seq<NodeModel>, kind: InstrKind, typ: TypeKind)
    requires
        wf(s),
        kind is Start || kind is Scope,
        kind is Start <==> s.len() == 0,
        typ == TypeKind::Bot,
    ensures
        wf(append_node0(s, kind, typ)),
{
    let l = s.len() as int;
    let t1 = append_node0(s, kind, typ);
    assert forall|i: int| 0 <= i < t1.len() implies node_ok(t1, i) by {
        if i < l {
            assert(node_ok(s, i));
            assert(t1[i] == s[i]);
        } else {
            assert(t1[i].inputs =~= Seq::<usize>::empty());
            assert(t1[i].outputs =~= Seq::<usize>::empty());
        }
    }
    assert forall|t: usize, u: usize|
        t < t1.len() && u < t1.len() implies #[trigger] occ(t1[u as int].inputs, t) == occ(
        t1[t as int].outputs,
        u,
    ) by {
        if t < l && u < l {
            assert(occ(s[u as int].inputs, t) == occ(s[t as int].outputs, u));
        } else if t < l && u as int == l {
            assert(node_ok(s, t as int));
            lemma_occ_absent(s[t as int].outputs, u);
            lemma_occ_empty(t);
        } else if t as int == l && u < l {
            assert(node_ok(s, u as int));
            lemma_occ_absent(s[u as int].inputs, t);
            lemma_occ_empty(u);
        } else {
            lemma_occ_empty(t);
            lemma_occ_empty(u);
        }
    }
}

/// Appending a one-operand node together with its back-edge preserves
/// well-formedness.
pub proof fn lemma_wf_append1(s: Seq<NodeModel>, kind: InstrKind, typ: TypeKind, x: usize)
    requires
        wf(s),
        s.len() <= usize::MAX,
        x < s.len(),
        kind_arity_ok(kind, 1),
        !(kind is Start),
        !(kind is Scope),
        kind is Int ==> typ is Int,
        !(kind is Int) ==> typ == TypeKind::Bot,
        s[x as int].kind != InstrKind::Scope,
    ensures
        wf(append_node1(s, kind, typ, x)),
{
    let l = s.len() as usize;
    let t1 = append_node1(s, kind, typ, x);
    assert(t1.len() == s.len() + 1);
    assert(t1[l as int].inputs =~= seq![x]);
    assert(t1[l as int].outputs =~= Seq::<usize>::empty());
    assert forall|i: int| 0 <= i < l implies t1[i].inputs == s[i].inputs && t1[i].kind
        == s[i].kind && t1[i].typ == s[i].typ by {}
    assert(t1[x as int].outputs == s[x as int].outputs.push(l));
    assert forall|i: int| 0 <= i < l && i != x implies t1[i].outputs == s[i].outputs by {}
    assert forall|i: int| 0 <= i < t1.len() implies node_ok(t1, i) by {
        if i < l {
            assert(node_ok(s, i));
        }
    }
    assert forall|t: usize, u: usize|
        t < t1.len() && u < t1.len() implies #[trigger] occ(t1[u as int].inputs, t) == occ(
        t1[t as int].outputs,
        u,
    ) by {
        assert(node_ok(s, if t < l { t as int } else { 0 }));
        if t < l && u < l {
            assert(occ(s[u as int].inputs, t) == occ(s[t as int].outputs, u));
            if t == x {
                lemma_occ_push(s[t as int].outputs, l, u);
            }
        } else if t < l && u == l {
            assert(node_ok(s, t as int));
            lemma_occ_absent(s[t as int].outputs, l);
            lemma_occ_single(x, t);
            if t == x {
                lemma_occ_push(s[t as int].outputs, l, l);
            }
        } else if t == l && u < l {
            assert(node_ok(s, u as int));
            lemma_occ_absent(s[u as int].inputs, l);
            lemma_occ_empty(u);
        } else {
            lemma_occ_single(x, l);
            lemma_occ_empty(l);
        }
    }
}

/// Appending a two-operand node together with both back-edges preserves
/// well-formedness.
pub proof fn lemma_wf_append2(s: Seq<NodeModel>, kind: InstrKind, typ: TypeKind, x: usize, y: usize)
    requires
        wf(s),
        s.len() <= usize::MAX,
        x < s.len(),
        y < s.len(),
        kind_arity_ok(kind, 2),
        !(kind is Start),
        !(kind is Int),
        !(kind is Scope),
        typ == TypeKind::Bot,
        s[x as int].kind != InstrKind::Scope,
        s[y as int].kind != InstrKind::Scope,
    ensures
        wf(append_node2(s, kind, typ, x, y)),
{
    let l = s.len() as usize;
    let t2 = append_node2(s, kind, typ, x, y);
    assert(t2.len() == s.len() + 1);
    assert(t2[l as int].inputs =~= seq![x, y]);
    assert(t2[l as int].outputs =~= Seq::<usize>::empty());
    assert forall|i: int| 0 <= i < l implies t2[i].inputs == s[i].inputs && t2[i].kind
        == s[i].kind && t2[i].typ == s[i].typ by {}
    if x == y {
        assert(t2[x as int].outputs == s[x as int].outputs.push(l).push(l));
    } else {
        assert(t2[x as int].outputs == s[x as int].outputs.push(l));
        assert(t2[y as int].outputs == s[y as int].outputs.push(l));
    }
    assert forall|i: int| 0 <= i < l && i != x && i != y implies t2[i].outputs == s[i].outputs by {}
    assert forall|i: int| 0 <= i < t2.len() implies node_ok(t2, i) by {
        if i < l {
            assert(node_ok(s, i));
        }
    }
    assert forall|t: usize, u: usize|
        t < t2.len() && u < t2.len() implies #[trigger] occ(t2[u as int].inputs, t) == occ(
        t2[t as int].outputs,
        u,
    ) by {
        if t < l && u < l {
            assert(occ(s[u as int].inputs, t) == occ(s[t as int].outputs, u));
            if t == x || t == y {
                if x == y && t == x {
                    lemma_occ_push(s[t as int].outputs, l, u);
                    lemma_occ_push(s[t as int].outputs.push(l), l, u);
                } else {
                    lemma_occ_push(s[t as int].outputs, l, u);
                }
            }
        } else if t < l && u == l {
            assert(node_ok(s, t as int));
            lemma_occ_absent(s[t as int].outputs, l);
            lemma_occ_pair(x, y, t);
            if x == y && t == x {
                lemma_occ_push(s[t as int].outputs, l, l);
                lemma_occ_push(s[t as int].outputs.push(l), l, l);
            } else if t == x || t == y {
                lemma_occ_push(s[t as int].outputs, l, l);
            }
        } else if t == l && u < l {
            assert(node_ok(s, u as int));
            lemma_occ_absent(s[u as int].inputs, l);
            lemma_occ_empty(u);
        } else {
            lemma_occ_pair(x, y, l);
            lemma_occ_empty(l);
        }
    }
}

/// Redirecting one operand slot, with both back-edge fixes, preserves
/// well-formedness.
pub proof fn lemma_wf_set_input(s: Seq<NodeModel>, t: usize, j: int, v: usize)
    requires
        wf(s),
        t < s.len(),
        0 <= j < s[t as int].inputs.len(),
        v < s.len(),
        s[v as int].kind != InstrKind::Scope,
    ensures
        wf(set_in(s, t, j, v)),
        occ(s[s[t as int].inputs[j] as int].outputs, t) > 0,
{
    let oc = s[t as int].inputs[j];
    assert(node_ok(s, t as int));
    assert(oc < s.len());
    // the slot's current target records this use at least once
    assert(s[t as int].inputs.contains(oc));
    lemma_occ_zero(s[t as int].inputs, oc);
    assert(occ(s[t as int].inputs, oc) > 0);
    assert(occ(s[oc as int].outputs, t) == occ(s[t as int].inputs, oc));
    let o = s[oc as int].outputs;
    o.index_of_first_ensures(t);
    lemma_occ_zero(o, t);
    let ri = o.index_of_first(t).unwrap();
    assert(o.remove_value(t) == o.remove(ri));
    assert(o[ri] == t);
    let s1 = s.update(
        t as int,
        NodeModel { inputs: s[t as int].inputs.update(j, v), ..s[t as int] },
    );
    let s2 = remove_out(s1, oc, t);
    let t3 = push_out(s2, v, t);
    assert(t3 == set_in(s, t, j, v));
    assert(t3.len() == s.len());
    // node contents after the three steps
    assert(t3[t as int].inputs == s[t as int].inputs.update(j, v));
    assert forall|i: int| 0 <= i < s.len() && i != t implies t3[i].inputs == s[i].inputs by {}
    assert forall|i: int| 0 <= i < s.len() implies t3[i].kind == s[i].kind && t3[i].typ
        == s[i].typ by {}
    assert forall|i: int| 0 <= i < t3.len() implies node_ok(t3, i) by {
        assert(node_ok(s, i));
        if i == oc as int {
            s[oc as int].outputs.remove_ensures(ri);
        }
    }
    assert forall|a: usize, b: usize|
        a < t3.len() && b < t3.len() implies #[trigger] occ(t3[b as int].inputs, a) == occ(
        t3[a as int].outputs,
        b,
    ) by {
        assert(occ(s[b as int].inputs, a) == occ(s[a as int].outputs, b));
        // effect on the inputs of b
        if b == t {
            lemma_occ_update(s[t as int].inputs, j, v, a);
        }
        // effect on the outputs of a
        if a == oc {
            lemma_occ_remove(o, ri, b);
        }
        if a == v {
            if a == oc {
                lemma_occ_push(o.remove(ri), t, b);
            } else {
                lemma_occ_push(s[a as int].outputs, t, b);
            }
        }
    }
}
/// `s` with `c` appended as one more operand of node `t`, the back-edge
/// included.
pub open spec fn push_in(s: Seq<NodeModel>, t: usize, c: usize) -> Seq<NodeModel> {
    push_out(
        s.update(t as int, NodeModel { inputs: s[t as int].inputs.push(c), ..s[t as int] }),
        c,
        t,
    )
}

/// Appending an operand to a scope frame node preserves well-formedness.
pub proof fn lemma_wf_push_in(s: Seq<NodeModel>, t: usize, c: usize)
    requires
        wf(s),
        t < s.len(),
        c < s.len(),
        s[t as int].kind is Scope,
        s[c as int].kind != InstrKind::Scope,
    ensures
        wf(push_in(s, t, c)),
{
    let r = push_in(s, t, c);
    assert(node_ok(s, t as int));
    assert(node_ok(s, c as int));
    assert(c != t);
    assert(r[t as int].inputs == s[t as int].inputs.push(c));
    assert(r[c as int].outputs == s[c as int].outputs.push(t));
    assert forall|i: int| 0 <= i < s.len() && i != t implies r[i].inputs == s[i].inputs by {}
    assert forall|i: int| 0 <= i < s.len() && i != c implies r[i].outputs == s[i].outputs by {}
    assert forall|i: int| 0 <= i < r.len() implies node_ok(r, i) by {
        assert(node_ok(s, i));
    }
    assert forall|a: usize, b: usize|
        a < r.len() && b < r.len() implies #[trigger] occ(r[b as int].inputs, a) == occ(
        r[a as int].outputs,
        b,
    ) by {
        assert(occ(s[b as int].inputs, a) == occ(s[a as int].outputs, b));
        if b == t {
            lemma_occ_push(s[t as int].inputs, c, a);
        }
        if a == c {
            lemma_occ_push(s[c as int].outputs, t, b);
        }
    }
}

/// In a well-formed graph no node, in particular no scope frame node, is
/// ever an operand: an operand always has the use recorded among its
/// outputs, and a scope frame node has none.
pub proof fn lemma_input_not_scope(s: Seq<NodeModel>, t: usize, j: int)
    requires
        wf(s),
        t < s.len(),
        0 <= j < s[t as int].inputs.len(),
    ensures
        s[t as int].inputs[j] < s.len(),
        s[s[t as int].inputs[j] as int].kind != InstrKind::Scope,
{
    let e = s[t as int].inputs[j];
    assert(node_ok(s, t as int));
    assert(s[t as int].inputs.contains(e));
    lemma_occ_zero(s[t as int].inputs, e);
    assert(occ(s[t as int].inputs, e) == occ(s[e as int].outputs, t));
    lemma_occ_zero(s[e as int].outputs, t);
    assert(node_ok(s, e as int));
    if s[e as int].kind is Scope {
        assert(s[e as int].outputs.len() == 0);
        assert(occ(s[e as int].outputs, t) == 0);
    }
}

/// `s` without its newest node, which must be a one-operand node with no
/// users: the operand's back-edge is cleaned up eagerly.
pub open spec fn drop_node1(s: Seq<NodeModel>) -> Seq<NodeModel> {
    let n = (s.len() - 1) as usize;
    remove_out(s, s[n as int].inputs[0], n).drop_last()
}

/// `s` without its newest node, which must be a two-operand node with no
/// users: both operands' back-edges are cleaned up eagerly.
pub open spec fn drop_node2(s: Seq<NodeModel>) -> Seq<NodeModel> {
    let n = (s.len() - 1) as usize;
    let x = s[n as int].inputs[0];
    let y = s[n as int].inputs[1];
    remove_out(remove_out(s, x, n), y, n).drop_last()
}

/// Dropping an unused newest one-operand node preserves well-formedness.
pub proof fn lemma_wf_drop_node1(s: Seq<NodeModel>)
    requires
        wf(s),
        1 <= s.len() <= usize::MAX,
        s[s.len() - 1].inputs.len() == 1,
        s[s.len() - 1].outputs.len() == 0,
    ensures
        ({
            let n = (s.len() - 1) as usize;
            let x = s[n as int].inputs[0];
            &&& x < n
            &&& occ(s[x as int].outputs, n) > 0
            &&& wf(drop_node1(s))
            &&& drop_node1(s).len() == s.len() - 1
        }),
{
    let n = (s.len() - 1) as usize;
    let x = s[n as int].inputs[0];
    assert(node_ok(s, n as int));
    assert(s[n as int].inputs =~= seq![x]);
    assert(s[n as int].outputs =~= Seq::<usize>::empty());
    assert forall|u: usize| u < s.len() implies occ(s[u as int].inputs, n as usize) == 0
        && #[trigger] occ(s[n as int].inputs, u) == occ(s[u as int].outputs, n as usize) by {
        lemma_occ_empty(u);
        assert(occ(s[u as int].inputs, n as usize) == occ(s[n as int].outputs, u));
        assert(occ(s[n as int].inputs, u) == occ(s[u as int].outputs, n as usize));
    }
    assert forall|u: usize| u < s.len() implies #[trigger] occ(s[u as int].outputs, n as usize)
        == (if u == x {
        1nat
    } else {
        0nat
    }) by {
        lemma_occ_single(x, u);
    }
    lemma_occ_single(x, n as usize);
    assert(x != n);
    let o = s[x as int].outputs;
    o.index_of_first_ensures(n as usize);
    lemma_occ_zero(o, n as usize);
    let ri = o.index_of_first(n as usize).unwrap();
    assert(o.remove_value(n as usize) == o.remove(ri));
    o.remove_ensures(ri);
    lemma_occ_remove(o, ri, n as usize);
    let s1 = remove_out(s, x, n as usize);
    let t1 = drop_node1(s);
    assert(t1 =~= s1.subrange(0, n as int));
    assert forall|i: int| 0 <= i < t1.len() implies node_ok(t1, i) by {
        assert(node_ok(s, i));
        assert forall|j: int| 0 <= j < t1[i].inputs.len() implies t1[i].inputs[j] < t1.len() by {
            let ui = i as usize;
            assert(occ(s[ui as int].inputs, n as usize) == occ(s[n as int].outputs, ui));
            lemma_occ_empty(ui);
            lemma_occ_zero(s[i].inputs, n as usize);
        }
        assert forall|j: int| 0 <= j < t1[i].outputs.len() implies t1[i].outputs[j]
            < t1.len() by {
            lemma_occ_zero(s1[i].outputs, n as usize);
            if i != x as int {
                assert(s1[i].outputs == s[i].outputs);
            }
        }
    }
    assert forall|a: usize, b: usize|
        a < t1.len() && b < t1.len() implies #[trigger] occ(t1[b as int].inputs, a) == occ(
        t1[a as int].outputs,
        b,
    ) by {
        assert(occ(s[b as int].inputs, a) == occ(s[a as int].outputs, b));
        if a == x {
            lemma_occ_remove(o, ri, b);
        }
    }
}

/// Removing one back-edge occurrence changes nothing but that one count.
pub proof fn lemma_remove_out_counts(s: Seq<NodeModel>, t: usize, u: usize)
    requires
        t < s.len(),
        occ(s[t as int].outputs, u) > 0,
    ensures
        ({
            let r = remove_out(s, t, u);
            &&& r.len() == s.len()
            &&& forall|i: int|
                0 <= i < s.len() ==> #[trigger] r[i].inputs == s[i].inputs && r[i].kind
                    == s[i].kind && r[i].typ == s[i].typ
            &&& forall|i: int| 0 <= i < s.len() && i != t ==> #[trigger] r[i].outputs
                == s[i].outputs
            &&& occ(r[t as int].outputs, u) == occ(s[t as int].outputs, u) - 1
            &&& forall|w: usize|
                w != u ==> #[trigger] occ(r[t as int].outputs, w) == occ(s[t as int].outputs, w)
            &&& r[t as int].outputs.len() == s[t as int].outputs.len() - 1
        }),
{
    let o = s[t as int].outputs;
    lemma_occ_zero(o, u);
    o.index_of_first_ensures(u);
    let ri = o.index_of_first(u).unwrap();
    assert(o.remove_value(u) == o.remove(ri));
    let r = remove_out(s, t, u);
    lemma_occ_remove(o, ri, u);
    assert forall|w: usize| w != u implies #[trigger] occ(r[t as int].outputs, w) == occ(
        s[t as int].outputs,
        w,
    ) by {
        lemma_occ_remove(o, ri, w);
    }
}

/// Dropping an unused newest two-operand node preserves well-formedness.
pub proof fn lemma_wf_drop_node2(s: Seq<NodeModel>)
    requires
        wf(s),
        1 <= s.len() <= usize::MAX,
        s[s.len() - 1].inputs.len() == 2,
        s[s.len() - 1].outputs.len() == 0,
    ensures
        ({
            let n = (s.len() - 1) as usize;
            let x = s[n as int].inputs[0];
            let y = s[n as int].inputs[1];
            &&& x < n && y < n
            &&& occ(s[x as int].outputs, n) > 0
            &&& occ(remove_out(s, x, n)[y as int].outputs, n) > 0
            &&& wf(drop_node2(s))
            &&& drop_node2(s).len() == s.len() - 1
        }),
{
    let n = (s.len() - 1) as usize;
    let x = s[n as int].inputs[0];
    let y = s[n as int].inputs[1];
    assert(node_ok(s, n as int));
    assert(s[n as int].inputs =~= seq![x, y]);
    assert(s[n as int].outputs =~= Seq::<usize>::empty());
    // no node takes the newest node as an operand
    assert forall|u: usize| u < s.len() implies #[trigger] occ(s[u as int].inputs, n as usize)
        == 0 by {
        assert(occ(s[u as int].inputs, n as usize) == occ(s[n as int].outputs, u));
        lemma_occ_empty(u);
    }
    // the newest node is recorded exactly on its operands
    assert forall|u: usize| u < s.len() implies #[trigger] occ(s[u as int].outputs, n as usize)
        == (if u == x {
        1nat
    } else {
        0nat
    }) + (if u == y {
        1nat
    } else {
        0nat
    }) by {
        assert(occ(s[n as int].inputs, u) == occ(s[u as int].outputs, n as usize));
        lemma_occ_pair(x, y, u);
    }
    lemma_occ_pair(x, y, n as usize);
    assert(x != n && y != n);
    assert(x < n && y < n);
    assert(occ(s[x as int].outputs, n as usize) > 0);
    lemma_remove_out_counts(s, x, n as usize);
    let s1 = remove_out(s, x, n as usize);
    assert(occ(s1[y as int].outputs, n as usize) > 0);
    lemma_remove_out_counts(s1, y, n as usize);
    let s2 = remove_out(s1, y, n as usize);
    assert forall|u: usize| u < s.len() implies #[trigger] occ(s2[u as int].outputs, n as usize)
        == 0 by {
        if u != x && u != y {
            assert(s2[u as int].outputs == s[u as int].outputs);
        }
    }
    let t2 = drop_node2(s);
    assert(t2 =~= s2.subrange(0, n as int));
    assert forall|i: int| 0 <= i < t2.len() implies node_ok(t2, i) by {
        assert(node_ok(s, i));
        let ui = i as usize;
        assert(t2[i].inputs == s[i].inputs);
        assert(occ(s[ui as int].inputs, n as usize) == 0);
        lemma_occ_zero(s[i].inputs, n as usize);
        assert(occ(s2[ui as int].outputs, n as usize) == 0);
        lemma_occ_zero(s2[i].outputs, n as usize);
        assert forall|j: int| 0 <= j < t2[i].outputs.len() implies t2[i].outputs[j]
            < t2.len() by {
            let e = t2[i].outputs[j];
            assert(e != n);
            lemma_occ_zero(s2[i].outputs, e);
            assert(occ(s2[ui as int].outputs, e) > 0);
            if ui != x && ui != y {
                assert(s2[i].outputs == s[i].outputs);
            }
            assert(occ(s[ui as int].outputs, e) > 0);
            lemma_occ_zero(s[i].outputs, e);
            let wj = choose|k: int|
                0 <= k < s[i].outputs.len() && s[i].outputs[k] == e;
            assert(s[i].outputs[wj] < s.len());
        }
        if s[i].kind is Scope {
            assert(s[i].outputs.len() == 0);
            assert(i != x as int && i != y as int);
            assert(t2[i].outputs == s[i].outputs);
        }
    }
    assert forall|a: usize, b: usize|
        a < t2.len() && b < t2.len() implies #[trigger] occ(t2[b as int].inputs, a) == occ(
        t2[a as int].outputs,
        b,
    ) by {
        assert(t2[b as int].inputs == s[b as int].inputs);
        assert(occ(s[b as int].inputs, a) == occ(s[a as int].outputs, b));
        assert(t2[a as int].outputs == s2[a as int].outputs);
        if a != x && a != y {
            assert(s2[a as int].outputs == s[a as int].outputs);
        } else {
            assert(occ(s1[a as int].outputs, b) == occ(s[a as int].outputs, b));
            assert(occ(s2[a as int].outputs, b) == occ(s1[a as int].outputs, b));
        }
    }
}

/// Dropping a freshly appended two-operand node restores the graph
/// exactly: the eager back-edge cleanup removes precisely the two
/// back-edges the construction added.
pub proof fn lemma_drop_append2(s: Seq<NodeModel>, kind: InstrKind, typ: TypeKind, x: usize, y: usize)
    requires
        wf(s),
        s.len() <= usize::MAX,
        x < s.len(),
        y < s.len(),
    ensures
        drop_node2(append_node2(s, kind, typ, x, y)) == s,
{
    let n = s.len() as usize;
    let s1 = append_node2(s, kind, typ, x, y);
    assert(s1[n as int].inputs =~= seq![x, y]);
    assert(node_ok(s, x as int));
    assert(node_ok(s, y as int));
    let ox = s[x as int].outputs;
    let oy = s[y as int].outputs;
    // the first (and only) occurrences of the new handle are the pushed ones
    if x == y {
        let o1 = ox.push(n).push(n);
        assert(s1[x as int].outputs == o1);
        o1.index_of_first_ensures(n);
        assert(o1.contains(n)) by {
            assert(o1[ox.len() as int + 1] == n);
        }
        let i1 = o1.index_of_first(n).unwrap();
        assert(i1 == ox.len()) by {
            if i1 < ox.len() {
                assert(o1[i1] == ox[i1]);
            }
            if i1 > ox.len() {
                assert(o1[ox.len() as int] == n);
            }
        }
        assert(o1.remove_value(n) == o1.remove(ox.len() as int));
        let s2 = remove_out(s1, x, n);
        assert(s2[x as int].outputs =~= ox.push(n));
        let o2 = ox.push(n);
        assert(s2[x as int].outputs == o2);
        o2.index_of_first_ensures(n);
        assert(o2.contains(n)) by {
            assert(o2[ox.len() as int] == n);
        }
        let i2 = o2.index_of_first(n).unwrap();
        assert(i2 == ox.len()) by {
            if i2 < ox.len() {
                assert(o2[i2] == ox[i2]);
            }
        }
        assert(o2.remove_value(n) == o2.remove(ox.len() as int));
        let s3 = remove_out(s2, y, n);
        assert(s3[x as int].outputs =~= ox);
        assert(drop_node2(s1) =~~= s);
    } else {
        let o1 = ox.push(n);
        assert(s1[x as int].outputs == o1);
        o1.index_of_first_ensures(n);
        assert(o1.contains(n)) by {
            assert(o1[ox.len() as int] == n);
        }
        let i1 = o1.index_of_first(n).unwrap();
        assert(i1 == ox.len()) by {
            if i1 < ox.len() {
                assert(o1[i1] == ox[i1]);
            }
        }
        assert(o1.remove_value(n) == o1.remove(ox.len() as int));
        let s2 = remove_out(s1, x, n);
        assert(s2[x as int].outputs =~= ox);
        let o2 = oy.push(n);
        assert(s2[y as int].outputs == o2);
        o2.index_of_first_ensures(n);
        assert(o2.contains(n)) by {
            assert(o2[oy.len() as int] == n);
        }
        let i2 = o2.index_of_first(n).unwrap();
        assert(i2 == oy.len()) by {
            if i2 < oy.len() {
                assert(o2[i2] == oy[i2]);
            }
        }
        assert(o2.remove_value(n) == o2.remove(oy.len() as int));
        let s3 = remove_out(s2, y, n);
        assert(s3[y as int].outputs =~= oy);
        assert(drop_node2(s1) =~~= s);
    }
}

/// Find the first index holding `u`.
fn find_first(xs: &Vec<usize>, u: usize) -> (r: usize)
    requires
        occ(xs@, u) > 0,
    ensures
        r < xs@.len(),
        xs@[r as int] == u,
        xs@.index_of_first(u) == Some(r as int),
{
    proof {
        lemma_occ_zero(xs@, u);
    }
    let n = xs.len();
    let mut j: usize = 0;
    while j < n && xs[j] != u
        invariant
            j <= n,
            n == xs@.len(),
            occ(xs@, u) > 0,
            forall|k: int| 0 <= k < j ==> xs@[k] != u,
        decreases n - j,
    {
        j = j + 1;
    }
    proof {
        lemma_occ_zero(xs@, u);
        assert(j < n);
        xs@.index_of_first_ensures(u);
        let fi = xs@.index_of_first(u).unwrap();
        assert(fi == j as int) by {
            if fi < j as int {
                assert(xs@[fi] == u);
            }
            if fi > j as int {
                assert(xs@[j as int] != u);
            }
        };
    }
    j
}

impl Graph {
    /// A fresh, empty compilation unit.
    pub fn new() -> (g: Graph)
        ensures
            g@ == Seq::<NodeModel>::empty(),
            wf(g@),
    {
        let g = Graph { nodes: Vec::new() };
        proof {
            assert(g@ =~= Seq::<NodeModel>::empty());
        }
        g
    }

    /// Register `u` as one more user of node `t`.
    pub(crate) fn push_output(&mut self, t: usize, u: usize)
        requires
            t < old(self)@.len(),
        ensures
            final(self)@ == push_out(old(self)@, t, u),
    {
        self.nodes[t].outputs.push(u);
        proof {
            assert(self@ =~~= push_out(old(self)@, t, u));
        }
    }

    /// Remove one registration of `u` as a user of node `t`.
    pub(crate) fn remove_output(&mut self, t: usize, u: usize)
        requires
            t < old(self)@.len(),
            occ(old(self)@[t as int].outputs, u) > 0,
        ensures
            final(self)@ == remove_out(old(self)@, t, u),
    {
        let j = find_first(&self.nodes[t].outputs, u);
        self.nodes[t].outputs.remove(j);
        proof {
            assert(self@ =~~= remove_out(old(self)@, t, u));
        }
    }

    /// Append a node with no operands.
    pub(crate) fn append0(&mut self, kind: InstrKind, typ: TypeKind) -> (idx: usize)
        ensures
            final(self)@ == append_node0(old(self)@, kind, typ),
            idx == old(self)@.len(),
    {
        let idx = self.nodes.len();
        self.nodes.push(Instr { kind, typ, inputs: Vec::new(), outputs: Vec::new() });
        proof {
            assert(self@ =~~= append_node0(old(self)@, kind, typ));
        }
        idx
    }

    /// Append a one-operand node and register its back-edge.
    pub(crate) fn append1(&mut self, kind: InstrKind, typ: TypeKind, x: usize) -> (idx: usize)
        requires
            x < old(self)@.len(),
        ensures
            final(self)@ == append_node1(old(self)@, kind, typ, x),
            idx == old(self)@.len(),
    {
        let idx = self.nodes.len();
        let mut ins: Vec<usize> = Vec::new();
        ins.push(x);
        self.nodes.push(Instr { kind, typ, inputs: ins, outputs: Vec::new() });
        proof {
            assert(self@ =~~= old(self)@.push(mk_node(kind, typ, seq![x])));
        }
        self.push_output(x, idx);
        proof {
            assert(self@ =~~= append_node1(old(self)@, kind, typ, x));
        }
        idx
    }

    /// Append a two-operand node and register both back-edges.
    pub(crate) fn append2(&mut self, kind: InstrKind, typ: TypeKind, x: usize, y: usize) -> (idx:
        usize)
        requires
            x < old(self)@.len(),
            y < old(self)@.len(),
        ensures
            final(self)@ == append_node2(old(self)@, kind, typ, x, y),
            idx == old(self)@.len(),
    {
        let idx = self.nodes.len();
        let mut ins: Vec<usize> = Vec::new();
        ins.push(x);
        ins.push(y);
        self.nodes.push(Instr { kind, typ, inputs: ins, outputs: Vec::new() });
        proof {
            assert(ins@ =~= seq![x, y]);
            assert(self@ =~~= old(self)@.push(mk_node(kind, typ, seq![x, y])));
        }
        self.push_output(x, idx);
        self.push_output(y, idx);
        proof {
            assert(self@ =~~= append_node2(old(self)@, kind, typ, x, y));
        }
        idx
    }

    /// Drop the most recently created node; it must have no users.
    pub(crate) fn pop_last(&mut self)
        requires
            old(self)@.len() > 0,
        ensures
            final(self)@ == old(self)@.drop_last(),
    {
        self.nodes.pop();
        proof {
            assert(self@ =~~= old(self)@.drop_last());
        }
    }

    /// Append `c` as one more operand of node `t`, registering the back-edge.
    pub(crate) fn add_input(&mut self, t: usize, c: usize)
        requires
            t < old(self)@.len(),
            c < old(self)@.len(),
        ensures
            final(self)@ == push_in(old(self)@, t, c),
    {
        let ghost s0 = old(self)@;
        self.nodes[t].inputs.push(c);
        proof {
            assert(self@ =~~= s0.update(
                t as int,
                NodeModel { inputs: s0[t as int].inputs.push(c), ..s0[t as int] },
            ));
        }
        self.push_output(c, t);
        proof {
            assert(self@ =~~= push_in(s0, t, c));
        }
    }

    /// Redirect operand slot `j` of node `t` to `v`, fixing both back-edges.
    pub(crate) fn set_input(&mut self, t: usize, j: usize, v: usize)
        requires
            t < old(self)@.len(),
            j < old(self)@[t as int].inputs.len(),
            v < old(self)@.len(),
            old(self)@[t as int].inputs[j as int] < old(self)@.len(),
            occ(old(self)@[old(self)@[t as int].inputs[j as int] as int].outputs, t) > 0,
        ensures
            final(self)@ == set_in(old(self)@, t, j as int, v),
    {
        let ghost s0 = old(self)@;
        let oc = self.nodes[t].inputs[j];
        self.nodes[t].inputs[j] = v;
        proof {
            let s1 = s0.update(
                t as int,
                NodeModel { inputs: s0[t as int].inputs.update(j as int, v), ..s0[t as int] },
            );
            assert(self@ =~~= s1);
            assert(self@.len() == s0.len());
            assert(self@[oc as int].outputs == s0[oc as int].outputs);
        }
        self.remove_output(oc, t);
        proof {
            assert(self@.len() == s0.len());
        }
        self.push_output(v, t);
        proof {
            assert(self@ =~~= set_in(s0, t, j as int, v));
        }
    }
}

} // verus!
