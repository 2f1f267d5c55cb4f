use deferred_cache::promise::{Failure, Promise, PromiseGraph, SettleError};

type Transform = fn(&i32) -> i32;
type Assemble = fn(Vec<&i32>) -> i32;
type Graph = PromiseGraph<i32, Transform, Assemble>;

fn sum(values: Vec<&i32>) -> i32 {
    values.into_iter().sum()
}

#[test]
fn test_promise_resolve() {
    let mut graph: Graph = PromiseGraph::new();
    let p = Promise::new(&mut graph);
    p.resolve(&mut graph, 5).unwrap();
    assert_eq!(p.value(&graph).clone(), Some(5));
}

#[test]
fn test_promise_then() {
    let mut graph: Graph = PromiseGraph::new();
    let p = Promise::new(&mut graph);
    let other = Promise::then(&p, &mut graph, |val| val * 2);
    p.resolve(&mut graph, 5).unwrap();
    assert_eq!(other.value(&graph).clone(), Some(10));
}

#[test]
fn test_promise_clone() {
    let mut graph: Graph = PromiseGraph::new();
    let p = Promise::new(&mut graph);
    let other = p.clone();
    p.resolve(&mut graph, 5).unwrap();
    assert_eq!(other.value(&graph).clone(), Some(5));
}

#[test]
fn pending_promise_has_no_value() {
    let mut graph: Graph = PromiseGraph::new();
    let p = Promise::new(&mut graph);
    assert!(p.is_pending(&graph));
    assert_eq!(p.value(&graph).clone(), None);
    assert_eq!(p.failure(&graph), None);
}

#[test]
fn second_settlement_is_refused() {
    let mut graph: Graph = PromiseGraph::new();
    let p = Promise::new(&mut graph);
    assert_eq!(p.resolve(&mut graph, 5), Ok(vec![p]));
    assert_eq!(p.resolve(&mut graph, 6), Err(SettleError::AlreadySettled));
    assert_eq!(p.reject(&mut graph, 1), Err(SettleError::AlreadySettled));
    assert_eq!(p.value(&graph).clone(), Some(5));
}

#[test]
fn derived_promise_cannot_be_settled_from_outside() {
    let mut graph: Graph = PromiseGraph::new();
    let p = Promise::new(&mut graph);
    let child = Promise::then(&p, &mut graph, |val| val + 1);
    assert_eq!(child.resolve(&mut graph, 9), Err(SettleError::Derived));
    assert_eq!(child.reject(&mut graph, 9), Err(SettleError::Derived));
    assert!(child.is_pending(&graph));
    p.resolve(&mut graph, 1).unwrap();
    assert_eq!(child.value(&graph).clone(), Some(2));
}

#[test]
fn then_on_settled_promise_fires_at_once() {
    let mut graph: Graph = PromiseGraph::new();
    let p = Promise::resolved(&mut graph, 21);
    let child = Promise::then(&p, &mut graph, |val| val * 2);
    assert_eq!(child.value(&graph).clone(), Some(42));
}

#[test]
fn continuations_fire_once_in_registration_order() {
    let mut graph: Graph = PromiseGraph::new();
    let p = Promise::new(&mut graph);
    let a = Promise::then(&p, &mut graph, |val| val + 1);
    let b = Promise::then(&p, &mut graph, |val| val + 2);
    let c = Promise::then(&a, &mut graph, |val| val * 10);
    assert!(a.index < b.index && b.index < c.index);
    assert_eq!(p.resolve(&mut graph, 1).unwrap(), vec![p, a, b, c]);
    assert_eq!(a.value(&graph).clone(), Some(2));
    assert_eq!(b.value(&graph).clone(), Some(3));
    assert_eq!(c.value(&graph).clone(), Some(20));
    assert_eq!(graph.len(), 4);
}

#[test]
fn join_settles_when_the_last_input_settles() {
    let mut graph: Graph = PromiseGraph::new();
    let a = Promise::new(&mut graph);
    let b = Promise::new(&mut graph);
    let c = Promise::new(&mut graph);
    let joined = Promise::join(&mut graph, &vec![a, b, c], sum);
    assert_eq!(a.resolve(&mut graph, 1).unwrap(), vec![a]);
    assert!(joined.is_pending(&graph));
    assert_eq!(b.resolve(&mut graph, 2).unwrap(), vec![b]);
    assert!(joined.is_pending(&graph));
    assert_eq!(c.resolve(&mut graph, 4).unwrap(), vec![c, joined]);
    assert_eq!(joined.value(&graph).clone(), Some(7));
}

#[test]
fn join_does_not_depend_on_settlement_order() {
    fn weigh(values: Vec<&i32>) -> i32 {
        values.iter().fold(0, |acc, v| acc * 10 + **v)
    }
    let mut forward: Graph = PromiseGraph::new();
    let a = Promise::new(&mut forward);
    let b = Promise::new(&mut forward);
    let c = Promise::new(&mut forward);
    let joined = Promise::join(&mut forward, &vec![a, b, c], weigh);
    a.resolve(&mut forward, 1).unwrap();
    b.resolve(&mut forward, 2).unwrap();
    c.resolve(&mut forward, 3).unwrap();

    let mut backward: Graph = PromiseGraph::new();
    let x = Promise::new(&mut backward);
    let y = Promise::new(&mut backward);
    let z = Promise::new(&mut backward);
    let other = Promise::join(&mut backward, &vec![x, y, z], weigh);
    z.resolve(&mut backward, 3).unwrap();
    y.resolve(&mut backward, 2).unwrap();
    assert!(other.is_pending(&backward));
    x.resolve(&mut backward, 1).unwrap();

    assert_eq!(joined.value(&forward).clone(), Some(123));
    assert_eq!(other.value(&backward).clone(), Some(123));
}

#[test]
fn join_of_settled_inputs_fires_at_once() {
    let mut graph: Graph = PromiseGraph::new();
    let a = Promise::resolved(&mut graph, 3);
    let b = Promise::resolved(&mut graph, 4);
    let joined = Promise::join(&mut graph, &vec![a, b, a], sum);
    assert_eq!(joined.value(&graph).clone(), Some(10));
    let empty = Promise::join(&mut graph, &vec![], sum);
    assert_eq!(empty.value(&graph).clone(), Some(0));
}

#[test]
fn failure_runs_through_then_and_join() {
    let mut graph: Graph = PromiseGraph::new();
    let a = Promise::new(&mut graph);
    let b = Promise::new(&mut graph);
    let child = Promise::then(&a, &mut graph, |val| val + 1);
    let joined = Promise::join(&mut graph, &vec![child, b], sum);
    let last = Promise::then(&joined, &mut graph, |val| val * 2);
    assert_eq!(a.reject(&mut graph, 77), Ok(vec![a, child, joined, last]));
    let failure = Some(Failure { origin: a.index, code: 77 });
    assert_eq!(a.failure(&graph), failure);
    assert_eq!(child.failure(&graph), failure);
    assert_eq!(joined.failure(&graph), failure);
    assert_eq!(last.failure(&graph), failure);
    assert_eq!(last.value(&graph).clone(), None);
    assert!(b.is_pending(&graph));
    b.resolve(&mut graph, 1).unwrap();
    assert_eq!(joined.failure(&graph), failure);
    let late = Promise::then(&last, &mut graph, |val| val + 1);
    assert_eq!(late.failure(&graph), failure);
}

#[test]
fn diamond_settles_every_promise_once() {
    let mut graph: Graph = PromiseGraph::new();
    let root = Promise::new(&mut graph);
    let left = Promise::then(&root, &mut graph, |val| val + 1);
    let right = Promise::then(&root, &mut graph, |val| val + 2);
    let joined = Promise::join(&mut graph, &vec![left, right], sum);
    let end = Promise::then(&joined, &mut graph, |val| val * 2);
    assert_eq!(root.resolve(&mut graph, 10).unwrap(), vec![root, left, right, joined, end]);
    assert_eq!(joined.value(&graph).clone(), Some(23));
    assert_eq!(end.value(&graph).clone(), Some(46));
}

#[test]
fn unknown_handle_is_not_held() {
    let mut graph: Graph = PromiseGraph::new();
    let p = Promise::new(&mut graph);
    assert!(graph.holds(p));
    assert!(!graph.holds(Promise { index: 1 }));
}

#[test]
fn peek_borrows_the_value() {
    let mut graph: Graph = PromiseGraph::new();
    let p = Promise::new(&mut graph);
    assert_eq!(p.peek(&graph), None);
    p.resolve(&mut graph, 8).unwrap();
    assert_eq!(p.peek(&graph), Some(&8));
}

#[test]
fn continuation_registered_late_on_a_pending_promise_waits() {
    let mut graph: Graph = PromiseGraph::new();
    let p = Promise::new(&mut graph);
    let q = Promise::new(&mut graph);
    let first = Promise::then(&p, &mut graph, |val| val + 1);
    let joined = Promise::join(&mut graph, &vec![first, q], sum);
    let second = Promise::then(&p, &mut graph, |val| val + 2);
    assert_eq!(q.resolve(&mut graph, 100).unwrap(), vec![q]);
    assert_eq!(p.resolve(&mut graph, 1).unwrap(), vec![p, first, joined, second]);
    assert_eq!(joined.value(&graph).clone(), Some(102));
    assert_eq!(second.value(&graph).clone(), Some(3));
}
