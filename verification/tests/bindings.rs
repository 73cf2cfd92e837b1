use picoc::rep::ctl::Start;
use picoc::rep::data::Int;
use picoc::rep::scope::{Scope, ScopeError};
use picoc::rep::{Graph, InstrKind, TypeKind};

fn unit() -> (Graph, usize, Scope) {
    let mut g = Graph::new();
    let start = Start::new(&mut g);
    let scope = Scope::new(&mut g);
    (g, start, scope)
}

#[test]
fn write_then_read() {
    let (mut g, start, mut scope) = unit();
    let one = Int::new(&mut g, start, TypeKind::Int(1));
    scope.push_nv();
    scope.write(&mut g, "a".to_string(), one).unwrap();
    assert_eq!(scope.read(&g, "a".to_string()), Ok(one));
    // the binding is an input edge of the scope frame node, and the scope
    // node itself is never used as an operand
    assert_eq!(g.nodes[scope.node].kind, InstrKind::Scope);
    assert_eq!(g.nodes[scope.node].inputs, vec![one]);
    assert!(g.nodes[scope.node].outputs.is_empty());
}

#[test]
fn read_unbound_fails() {
    let (g, _start, mut scope) = unit();
    scope.push_nv();
    let r = scope.read(&g, "missing".to_string());
    assert!(matches!(r, Err(ScopeError::NotFound(a)) if a == "missing"));
}

#[test]
fn write_twice_in_one_frame_fails() {
    let (mut g, start, mut scope) = unit();
    let one = Int::new(&mut g, start, TypeKind::Int(1));
    let two = Int::new(&mut g, start, TypeKind::Int(2));
    scope.push_nv();
    scope.write(&mut g, "a".to_string(), one).unwrap();
    let r = scope.write(&mut g, "a".to_string(), two);
    assert!(matches!(r, Err(ScopeError::DoubleDefine(a)) if a == "a"));
}

#[test]
fn write_without_a_frame_fails() {
    let (mut g, start, mut scope) = unit();
    let one = Int::new(&mut g, start, TypeKind::Int(1));
    let r = scope.write(&mut g, "a".to_string(), one);
    assert!(matches!(r, Err(ScopeError::NoNvExists)));
}

#[test]
fn shadowing_across_frames() {
    let (mut g, start, mut scope) = unit();
    let outer = Int::new(&mut g, start, TypeKind::Int(1));
    let inner = Int::new(&mut g, start, TypeKind::Int(2));
    scope.push_nv();
    scope.write(&mut g, "a".to_string(), outer).unwrap();
    scope.push_nv();
    scope.write(&mut g, "a".to_string(), inner).unwrap();
    // the innermost binding wins while its frame is open
    assert_eq!(scope.read(&g, "a".to_string()), Ok(inner));
    scope.pop_nv();
    // and the outer binding is visible again afterwards
    assert_eq!(scope.read(&g, "a".to_string()), Ok(outer));
}

#[test]
fn update_rebinds_in_place() {
    let (mut g, start, mut scope) = unit();
    let one = Int::new(&mut g, start, TypeKind::Int(1));
    let two = Int::new(&mut g, start, TypeKind::Int(2));
    scope.push_nv();
    scope.write(&mut g, "a".to_string(), one).unwrap();
    let r = scope.update(&mut g, "a".to_string(), two);
    assert_eq!(r, Ok(two));
    assert_eq!(scope.read(&g, "a".to_string()), Ok(two));
    // the slot was mutated in place: still one binding edge, and the old
    // node no longer records the scope as a user
    assert_eq!(g.nodes[scope.node].inputs, vec![two]);
    assert!(g.nodes[one].outputs.is_empty());
    assert_eq!(g.nodes[two].outputs, vec![scope.node]);
}

#[test]
fn update_searches_outer_frames() {
    let (mut g, start, mut scope) = unit();
    let one = Int::new(&mut g, start, TypeKind::Int(1));
    let two = Int::new(&mut g, start, TypeKind::Int(2));
    scope.push_nv();
    scope.write(&mut g, "a".to_string(), one).unwrap();
    scope.push_nv();
    // no `a` in the innermost frame: assignment reaches the outer binding
    let r = scope.update(&mut g, "a".to_string(), two);
    assert_eq!(r, Ok(two));
    scope.pop_nv();
    assert_eq!(scope.read(&g, "a".to_string()), Ok(two));
}

#[test]
fn update_unbound_fails() {
    let (mut g, start, mut scope) = unit();
    let one = Int::new(&mut g, start, TypeKind::Int(1));
    scope.push_nv();
    let r = scope.update(&mut g, "a".to_string(), one);
    assert!(matches!(r, Err(ScopeError::NotFound(a)) if a == "a"));
}

#[test]
fn popped_bindings_become_unreachable() {
    let (mut g, start, mut scope) = unit();
    let one = Int::new(&mut g, start, TypeKind::Int(1));
    scope.push_nv();
    scope.write(&mut g, "a".to_string(), one).unwrap();
    scope.pop_nv();
    let r = scope.read(&g, "a".to_string());
    assert!(matches!(r, Err(ScopeError::NotFound(_))));
    // the node itself is still alive in the arena, reachable structurally
    assert_eq!(g.nodes[one].typ, TypeKind::Int(1));
}
