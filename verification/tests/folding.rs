use picoc::optimizer::{eval_type, peephole};
use picoc::rep::ctl::{Return, Start};
use picoc::rep::data::{Add, Div, Int, Mul, Neg, Sub};
use picoc::rep::{Graph, InstrKind, TypeKind};

fn unit() -> (Graph, usize) {
    let mut g = Graph::new();
    let start = Start::new(&mut g);
    (g, start)
}

#[test]
fn is_constant_only_for_exact_integers() {
    assert!(TypeKind::Int(0).is_constant());
    assert!(TypeKind::Int(-7).is_constant());
    assert!(!TypeKind::Bot.is_constant());
    assert!(!TypeKind::Top.is_constant());
    assert!(!TypeKind::Simple.is_constant());
}

#[test]
fn eval_add() {
    let (mut g, start) = unit();
    let a = Int::new(&mut g, start, TypeKind::Int(20));
    let b = Int::new(&mut g, start, TypeKind::Int(22));
    let n = Add::new(&mut g, a, b);
    assert_eq!(eval_type(&g, n), Ok(TypeKind::Int(42)));
}

#[test]
fn eval_sub() {
    let (mut g, start) = unit();
    let a = Int::new(&mut g, start, TypeKind::Int(5));
    let b = Int::new(&mut g, start, TypeKind::Int(9));
    let n = Sub::new(&mut g, a, b);
    assert_eq!(eval_type(&g, n), Ok(TypeKind::Int(-4)));
}

#[test]
fn eval_mul() {
    let (mut g, start) = unit();
    let a = Int::new(&mut g, start, TypeKind::Int(-6));
    let b = Int::new(&mut g, start, TypeKind::Int(7));
    let n = Mul::new(&mut g, a, b);
    assert_eq!(eval_type(&g, n), Ok(TypeKind::Int(-42)));
}

#[test]
fn eval_div_truncates_toward_zero() {
    let (mut g, start) = unit();
    let a = Int::new(&mut g, start, TypeKind::Int(-9));
    let b = Int::new(&mut g, start, TypeKind::Int(2));
    let n = Div::new(&mut g, a, b);
    assert_eq!(eval_type(&g, n), Ok(TypeKind::Int(-4)));
}

#[test]
fn eval_div_by_zero_is_an_error() {
    let (mut g, start) = unit();
    let a = Int::new(&mut g, start, TypeKind::Int(4));
    let b = Int::new(&mut g, start, TypeKind::Int(0));
    let n = Div::new(&mut g, a, b);
    assert!(eval_type(&g, n).is_err());
}

#[test]
fn eval_neg() {
    let (mut g, start) = unit();
    let a = Int::new(&mut g, start, TypeKind::Int(13));
    let n = Neg::new(&mut g, a);
    assert_eq!(eval_type(&g, n), Ok(TypeKind::Int(-13)));
}

#[test]
fn eval_control_nodes_have_no_value() {
    let (mut g, start) = unit();
    let a = Int::new(&mut g, start, TypeKind::Int(1));
    let r = Return::new(&mut g, start, a);
    assert_eq!(eval_type(&g, start), Ok(TypeKind::Bot));
    assert_eq!(eval_type(&g, r), Ok(TypeKind::Bot));
}

#[test]
fn eval_overflow_is_bot() {
    let (mut g, start) = unit();
    let a = Int::new(&mut g, start, TypeKind::Int(i128::MAX));
    let b = Int::new(&mut g, start, TypeKind::Int(1));
    let n = Add::new(&mut g, a, b);
    assert_eq!(eval_type(&g, n), Ok(TypeKind::Bot));
}

#[test]
fn peephole_folds_constant_addition() {
    let (mut g, start) = unit();
    let a = Int::new(&mut g, start, TypeKind::Int(8));
    let b = Int::new(&mut g, start, TypeKind::Int(11));
    let n = Add::new(&mut g, a, b);
    let len_before = g.nodes.len();
    let r = peephole(&mut g, n, start).unwrap();
    // the addition node is replaced in place by a fresh constant leaf
    assert_eq!(g.nodes.len(), len_before);
    assert_eq!(g.nodes[r].kind, InstrKind::Int);
    assert_eq!(g.nodes[r].typ, TypeKind::Int(19));
    assert_eq!(g.nodes[r].inputs, vec![start]);
    // the operands no longer record the dropped node as a user
    assert!(g.nodes[a].outputs.is_empty());
    assert!(g.nodes[b].outputs.is_empty());
    assert!(g.nodes.iter().all(|nd| nd.kind != InstrKind::Add));
}

#[test]
fn peephole_is_idempotent_on_folded_constants() {
    let (mut g, start) = unit();
    let a = Int::new(&mut g, start, TypeKind::Int(2));
    let b = Int::new(&mut g, start, TypeKind::Int(3));
    let n = Mul::new(&mut g, a, b);
    let first = peephole(&mut g, n, start).unwrap();
    let len_after_first = g.nodes.len();
    let outputs_after_first = g.nodes[start].outputs.clone();
    let second = peephole(&mut g, first, start).unwrap();
    // the second invocation returns the same node and changes nothing
    assert_eq!(second, first);
    assert_eq!(g.nodes.len(), len_after_first);
    assert_eq!(g.nodes[start].outputs, outputs_after_first);
    assert_eq!(g.nodes[second].kind, InstrKind::Int);
    assert_eq!(g.nodes[second].typ, TypeKind::Int(6));
}

#[test]
fn peephole_leaves_non_constant_operands_alone() {
    let (mut g, start) = unit();
    let a = Int::new(&mut g, start, TypeKind::Int(1));
    let b = Int::new(&mut g, start, TypeKind::Int(2));
    let inner = Add::new(&mut g, a, b);
    // the inner node is deliberately not folded, so its type stays Bot and
    // the outer node cannot fold either
    let c = Int::new(&mut g, start, TypeKind::Int(3));
    let outer = Add::new(&mut g, inner, c);
    let r = peephole(&mut g, outer, start).unwrap();
    assert_eq!(r, outer);
    assert_eq!(g.nodes[r].kind, InstrKind::Add);
}

#[test]
fn edges_stay_symmetric() {
    let (mut g, start) = unit();
    let a = Int::new(&mut g, start, TypeKind::Int(4));
    let b = Int::new(&mut g, start, TypeKind::Int(4));
    let n = Add::new(&mut g, a, b);
    // every input edge has its matching back-edge
    for (u, node) in g.nodes.iter().enumerate() {
        for &t in node.inputs.iter() {
            let ins = g.nodes[u].inputs.iter().filter(|&&w| w == t).count();
            let outs = g.nodes[t].outputs.iter().filter(|&&w| w == u).count();
            assert_eq!(ins, outs);
        }
    }
    assert_eq!(g.nodes[a].outputs, vec![n]);
    assert_eq!(g.nodes[b].outputs, vec![n]);
}

#[test]
fn peephole_folds_negation() {
    let (mut g, start) = unit();
    let a = Int::new(&mut g, start, TypeKind::Int(5));
    let n = Neg::new(&mut g, a);
    let r = peephole(&mut g, n, start).unwrap();
    assert_eq!(g.nodes[r].kind, InstrKind::Int);
    assert_eq!(g.nodes[r].typ, TypeKind::Int(-5));
    assert!(g.nodes[a].outputs.is_empty());
}

#[test]
fn eval_neg_overflow_is_bot() {
    let (mut g, start) = unit();
    let a = Int::new(&mut g, start, TypeKind::Int(i128::MIN));
    let n = Neg::new(&mut g, a);
    assert_eq!(eval_type(&g, n), Ok(TypeKind::Bot));
}
