use deferred_cache::promise::{Failure, Promise, PromiseGraph};
use deferred_cache::worker::{AsyncPromise, AsyncRunner, Message};
use std::sync::mpsc::channel;

type Texts = PromiseGraph<String, fn(&String) -> String, fn(Vec<&String>) -> String>;

type Graph = PromiseGraph<i32, fn(&i32) -> i32, fn(Vec<&i32>) -> i32>;

#[test]
fn result_arrives_at_the_poll_after_it_was_sent() {
    let mut graph: Graph = PromiseGraph::new();
    let (sender, receiver) = channel::<Message<i32>>();
    let task = AsyncPromise::new(&mut graph, receiver);
    assert!(task.promise.is_pending(&graph));
    assert!(!task.try_resolve(&mut graph));
    assert_eq!(task.promise.value(&graph).clone(), None);
    sender.send(Ok(42)).unwrap();
    assert!(task.try_resolve(&mut graph));
    assert_eq!(task.promise.value(&graph).clone(), Some(42));
    assert!(!task.try_resolve(&mut graph));
}

#[test]
fn failure_of_a_worker_fails_the_promise() {
    let mut graph: Graph = PromiseGraph::new();
    let (sender, receiver) = channel::<Message<i32>>();
    let task = AsyncPromise::new(&mut graph, receiver);
    let child = Promise::then(&task.promise, &mut graph, |value| value + 1);
    sender.send(Err(13)).unwrap();
    assert!(task.try_resolve(&mut graph));
    let failure = Some(Failure { origin: task.promise.index, code: 13 });
    assert_eq!(task.promise.failure(&graph), failure);
    assert_eq!(child.failure(&graph), failure);
}

#[test]
fn lost_worker_leaves_the_promise_pending() {
    let mut graph: Graph = PromiseGraph::new();
    let (sender, receiver) = channel::<Message<i32>>();
    let task = AsyncPromise::new(&mut graph, receiver);
    drop(sender);
    assert!(!task.try_resolve(&mut graph));
    assert!(task.promise.is_pending(&graph));
}

#[test]
fn deliver_settles_a_pending_root_only() {
    let mut graph: Graph = PromiseGraph::new();
    let (_sender, receiver) = channel::<Message<i32>>();
    let task = AsyncPromise::new(&mut graph, receiver);
    assert!(task.deliver(&mut graph, Ok(1)));
    assert!(!task.deliver(&mut graph, Ok(2)));
    assert!(!task.deliver(&mut graph, Err(3)));
    assert_eq!(task.promise.value(&graph).clone(), Some(1));
    let child = Promise::then(&task.promise, &mut graph, |value| value + 1);
    let (_other, receiver) = channel::<Message<i32>>();
    let bound = AsyncPromise::bind(child, receiver);
    assert!(!bound.deliver(&mut graph, Ok(9)));
    assert_eq!(child.value(&graph).clone(), Some(2));
}

#[test]
fn runner_polls_every_awaited_result() {
    let mut graph: Graph = PromiseGraph::new();
    let mut runner: AsyncRunner<i32> = AsyncRunner::new();
    let mut senders = Vec::new();
    let mut promises = Vec::new();
    for _ in 0..3 {
        let (sender, receiver) = channel::<Message<i32>>();
        let task = AsyncPromise::new(&mut graph, receiver);
        promises.push(task.promise);
        runner.track(task);
        senders.push(sender);
    }
    assert_eq!(runner.len(), 3);
    assert_eq!(runner.try_resolve_all(&mut graph), 0);
    senders[1].send(Ok(20)).unwrap();
    assert_eq!(runner.try_resolve_all(&mut graph), 1);
    assert_eq!(runner.len(), 2);
    assert_eq!(promises[1].value(&graph).clone(), Some(20));
    assert!(promises[0].is_pending(&graph));
    senders[0].send(Ok(10)).unwrap();
    senders[2].send(Err(5)).unwrap();
    assert_eq!(runner.try_resolve_all(&mut graph), 2);
    assert_eq!(runner.len(), 0);
    assert_eq!(promises[0].value(&graph).clone(), Some(10));
    assert_eq!(promises[2].failure(&graph), Some(Failure { origin: promises[2].index, code: 5 }));
}

#[test]
fn runner_forgets_what_was_settled_elsewhere() {
    let mut graph: Graph = PromiseGraph::new();
    let mut runner: AsyncRunner<i32> = AsyncRunner::new();
    let (_sender, receiver) = channel::<Message<i32>>();
    let task = AsyncPromise::new(&mut graph, receiver);
    let promise = task.promise;
    runner.track(task);
    promise.resolve(&mut graph, 1).unwrap();
    assert_eq!(runner.try_resolve_all(&mut graph), 1);
    assert_eq!(runner.len(), 0);
    assert_eq!(promise.value(&graph).clone(), Some(1));
}

#[test]
fn test_promise_async() {
    let mut graph: Texts = PromiseGraph::new();
    let (sender, receiver) = channel::<Message<String>>();
    let p = AsyncPromise::new(&mut graph, receiver);
    p.try_resolve(&mut graph);
    assert_eq!(p.promise.value(&graph).clone(), None);
    sender.send(Ok("Hello world from thread".to_string())).unwrap();
    p.try_resolve(&mut graph);
    assert_eq!(p.promise.value(&graph).clone(), Some("Hello world from thread".to_string()));
}

#[test]
fn two_results_for_one_promise_are_both_awaited_no_longer() {
    let mut graph: Graph = PromiseGraph::new();
    let mut runner: AsyncRunner<i32> = AsyncRunner::new();
    let (_first, first_receiver) = channel::<Message<i32>>();
    let (second, second_receiver) = channel::<Message<i32>>();
    let task = AsyncPromise::new(&mut graph, first_receiver);
    let promise = task.promise;
    runner.track(task);
    runner.track(AsyncPromise::bind(promise, second_receiver));
    assert_eq!(runner.try_resolve_all(&mut graph), 0);
    assert_eq!(runner.len(), 2);
    second.send(Ok(7)).unwrap();
    assert_eq!(runner.try_resolve_all(&mut graph), 2);
    assert_eq!(runner.len(), 0);
    assert_eq!(promise.value(&graph).clone(), Some(7));
}

#[test]
fn result_for_a_derived_promise_is_dropped() {
    let mut graph: Graph = PromiseGraph::new();
    let mut runner: AsyncRunner<i32> = AsyncRunner::new();
    let root = Promise::new(&mut graph);
    let child = Promise::then(&root, &mut graph, |value| value + 1);
    let (sender, receiver) = channel::<Message<i32>>();
    runner.track(AsyncPromise::bind(child, receiver));
    sender.send(Ok(9)).unwrap();
    assert_eq!(runner.try_resolve_all(&mut graph), 0);
    assert_eq!(runner.len(), 1);
    assert!(child.is_pending(&graph));
    root.resolve(&mut graph, 1).unwrap();
    assert_eq!(runner.try_resolve_all(&mut graph), 1);
    assert_eq!(runner.len(), 0);
    assert_eq!(child.value(&graph).clone(), Some(2));
}
