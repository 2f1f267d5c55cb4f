//! Results that arrive from background workers.
//!
//! A worker computes a value away from the thread that owns the promises
//! and sends it, or the code of its failure, through a channel. The owning
//! thread looks into the channel without waiting and settles the promise
//! with what it finds there.

use crate::promise::{Failure, Promise, PromiseGraph, SettleError};
use std::sync::mpsc::Receiver;
use vstd::prelude::*;

verus! {

/// Makes `std::sync::mpsc::Receiver` known to the verifier, as a type whose
/// inside it does not look into. Nothing is claimed of it.
#[verifier::external_type_specification]
#[verifier::external_body]
#[verifier::reject_recursive_types(T)]
pub struct ExReceiver<T>(Receiver<T>);

/// What a worker sends: its value, or the code of its failure.
pub type Message<T> = Result<T, u64>;

/// Takes the next message out of the channel if one is waiting there.
///
/// This calls `Receiver::try_recv`, which never blocks. Nothing is claimed
/// of the result: whether a message is waiting depends on how far the
/// sender has come. `None` stands for an empty channel and for a channel
/// whose sender is gone.
#[verifier::external_body]
fn try_receive<T>(receiver: &Receiver<T>) -> Option<T> {
    match receiver.try_recv() {
        Ok(message) => Some(message),
        Err(_) => None,
    }
}

/// The graph `after` is `before` after the message has settled the root
/// `promise`: with the value, or with the failure that the code stands for.
pub open spec fn delivered<T, F: Fn(&T) -> T, J: Fn(Vec<&T>) -> T>(
    after: &PromiseGraph<T, F, J>,
    before: &PromiseGraph<T, F, J>,
    promise: Promise,
    message: Message<T>,
) -> bool {
    match message {
        Ok(value) => after.resolved_from(before, promise, value),
        Err(code) => after.rejected_from(before, promise, Failure { origin: promise.index, code }),
    }
}

/// A promise together with the channel that its result arrives through.
#[verifier::reject_recursive_types(T)]
pub struct AsyncPromise<T> {
    pub promise: Promise,
    pub receiver: Receiver<Message<T>>,
}

impl<T> AsyncPromise<T> {
    /// Adds a pending root promise to the graph, to be settled with what
    /// arrives through `receiver`.
    pub fn new<F: Fn(&T) -> T, J: Fn(Vec<&T>) -> T>(
        graph: &mut PromiseGraph<T, F, J>,
        receiver: Receiver<Message<T>>,
    ) -> (task: AsyncPromise<T>)
        requires
            old(graph).wf(),
        ensures
            final(graph).wf(),
            final(graph).extends(old(graph)),
            task.promise.index == old(graph).cells().len(),
            final(graph).cells().len() == old(graph).cells().len() + 1,
            final(graph).sources()[task.promise.index as int] is Root,
            final(graph).pending(task.promise.index as int),
    {
        let promise = Promise::new(graph);
        AsyncPromise { promise, receiver }
    }

    /// Binds a promise to the channel that its result arrives through.
    pub fn bind(promise: Promise, receiver: Receiver<Message<T>>) -> (task: AsyncPromise<T>)
        ensures
            task.promise == promise,
    {
        AsyncPromise { promise, receiver }
    }

    /// Settles the promise with a message of the worker: with the value, or
    /// with the failure that the code stands for. Returns whether the
    /// message settled the promise; it does not where the promise is not a
    /// pending root, and the graph then stays as it is.
    pub fn deliver<F: Fn(&T) -> T, J: Fn(Vec<&T>) -> T>(
        &self,
        graph: &mut PromiseGraph<T, F, J>,
        message: Message<T>,
    ) -> (settled: bool)
        requires
            old(graph).wf(),
            old(graph).contains(self.promise),
        ensures
            final(graph).wf(),
            final(graph).sources() == old(graph).sources(),
            final(graph).cells().len() == old(graph).cells().len(),
            settled <==> old(graph).sources()[self.promise.index as int] is Root && old(graph).pending(
                self.promise.index as int,
            ),
            !settled ==> final(graph).cells() == old(graph).cells(),
            settled ==> delivered(final(graph), old(graph), self.promise, message),
            settled && message.is_ok() ==> final(graph).cells()[self.promise.index as int].value
                == Some(message->Ok_0),
            settled && message.is_err() ==> final(graph).cells()[self.promise.index as int].failure
                == Some(Failure { origin: self.promise.index, code: message->Err_0 }),
            forall|d: int|
                0 <= d < old(graph).cells().len() && d != self.promise.index && (d
                    < self.promise.index || old(graph).sources()[d] is Root || !old(graph).pending(d))
                    ==> (#[trigger] final(graph).cells()[d]) == old(graph).cells()[d],
            forall|d: int|
                0 <= d < old(graph).cells().len() ==> (#[trigger] final(graph).cells()[d]).links
                    == old(graph).cells()[d].links,
    {
        match message {
            Ok(value) => self.promise.resolve(graph, value).is_ok(),
            Err(code) => self.promise.reject(graph, code).is_ok(),
        }
    }

    /// Looks into the channel without waiting, and settles the promise with
    /// the message if one is there. Returns whether it did.
    ///
    /// Whether a message is there is not for this function to decide. Where
    /// it returns `true`, the graph is what [`AsyncPromise::deliver`] makes
    /// of it with some message; where it returns `false`, the graph is as it
    /// was. Either way nothing is added to the graph, no promise but a
    /// pending one gets a value or a failure, and the only root that may
    /// change is the promise that is bound to the channel.
    pub fn try_resolve<F: Fn(&T) -> T, J: Fn(Vec<&T>) -> T>(
        &self,
        graph: &mut PromiseGraph<T, F, J>,
    ) -> (settled: bool)
        requires
            old(graph).wf(),
            old(graph).contains(self.promise),
        ensures
            final(graph).wf(),
            final(graph).sources() == old(graph).sources(),
            final(graph).cells().len() == old(graph).cells().len(),
            settled ==> old(graph).sources()[self.promise.index as int] is Root && old(graph).pending(
                self.promise.index as int,
            ) && !final(graph).pending(self.promise.index as int),
            settled ==> exists|message: Message<T>| #[trigger]
                delivered(final(graph), old(graph), self.promise, message),
            !settled ==> final(graph).cells() == old(graph).cells(),
            forall|d: int|
                0 <= d < old(graph).cells().len() && d != self.promise.index && (d
                    < self.promise.index || old(graph).sources()[d] is Root || !old(graph).pending(d))
                    ==> (#[trigger] final(graph).cells()[d]) == old(graph).cells()[d],
            forall|d: int|
                0 <= d < old(graph).cells().len() ==> (#[trigger] final(graph).cells()[d]).links
                    == old(graph).cells()[d].links,
    {
        match try_receive(&self.receiver) {
            Some(message) => self.deliver(graph, message),
            None => false,
        }
    }
}


/// The tasks whose results are still awaited.
#[verifier::reject_recursive_types(T)]
pub struct AsyncRunner<T> {
    tasks: Vec<AsyncPromise<T>>,
}

impl<T> AsyncRunner<T> {
    /// The awaited tasks.
    pub closed spec fn tasks(&self) -> Seq<AsyncPromise<T>> {
        self.tasks@
    }

    /// Every awaited task has a promise of the graph.
    pub open spec fn within<F: Fn(&T) -> T, J: Fn(Vec<&T>) -> T>(
        &self,
        graph: &PromiseGraph<T, F, J>,
    ) -> bool {
        forall|i: int| 0 <= i < self.tasks().len() ==> graph.contains((#[trigger] self.tasks()[i]).promise)
    }

    /// A runner that awaits nothing.
    pub fn new() -> (runner: AsyncRunner<T>)
        ensures
            runner.tasks().len() == 0,
    {
        AsyncRunner { tasks: Vec::new() }
    }

    /// The number of awaited tasks.
    pub fn len(&self) -> (n: usize)
        ensures
            n == self.tasks().len(),
    {
        self.tasks.len()
    }

    /// Awaits one more task.
    pub fn track(&mut self, task: AsyncPromise<T>)
        ensures
            final(self).tasks() == old(self).tasks().push(task),
    {
        self.tasks.push(task);
    }

    /// Looks once into the channel of every awaited task, without waiting,
    /// and settles the promises whose results have arrived. After that the
    /// tasks whose promise is still pending are awaited on, in their order,
    /// and no others: a task whose promise is settled, now or from before,
    /// by its own result or otherwise, is awaited no longer. Returns the
    /// number of tasks that are awaited no longer.
    ///
    /// Which results have arrived is not for this function to decide. What
    /// holds either way: nothing is added to the graph, no promise but a
    /// pending one gets a value or a failure, and the only roots that may
    /// change are promises of awaited tasks.
    pub fn try_resolve_all<F: Fn(&T) -> T, J: Fn(Vec<&T>) -> T>(
        &mut self,
        graph: &mut PromiseGraph<T, F, J>,
    ) -> (finished: usize)
        requires
            old(graph).wf(),
            old(self).within(old(graph)),
        ensures
            final(graph).wf(),
            final(self).within(final(graph)),
            final(graph).sources() == old(graph).sources(),
            final(graph).cells().len() == old(graph).cells().len(),
            final(self).tasks() == awaiting(old(self).tasks(), final(graph)),
            finished + final(self).tasks().len() == old(self).tasks().len(),
            forall|d: int|
                0 <= d < old(graph).cells().len() && !old(graph).pending(d) ==> (
                #[trigger] final(graph).cells()[d]) == old(graph).cells()[d],
            forall|d: int|
                0 <= d < old(graph).cells().len() && old(graph).sources()[d] is Root && !(exists|
                    i: int,
                |
                    0 <= i < old(self).tasks().len() && (#[trigger] old(self).tasks()[i]).promise.index
                        == d) ==> (#[trigger] final(graph).cells()[d]) == old(graph).cells()[d],
            forall|d: int|
                0 <= d < old(graph).cells().len() ==> (#[trigger] final(graph).cells()[d]).links
                    == old(graph).cells()[d].links,
    {
        let mut i: usize = 0;
        while i < self.tasks.len()
            invariant
                i <= self.tasks().len(),
                self.tasks() == old(self).tasks(),
                old(self).within(old(graph)),
                graph.wf(),
                graph.sources() == old(graph).sources(),
                graph.cells().len() == old(graph).cells().len(),
                forall|d: int|
                    0 <= d < old(graph).cells().len() && !old(graph).pending(d) ==> (
                    #[trigger] graph.cells()[d]) == old(graph).cells()[d],
                forall|d: int|
                    0 <= d < old(graph).cells().len() && old(graph).sources()[d] is Root && !(exists|
                        k: int,
                    |
                        0 <= k < old(self).tasks().len() && (
                        #[trigger] old(self).tasks()[k]).promise.index == d) ==> (
                    #[trigger] graph.cells()[d]) == old(graph).cells()[d],
                forall|d: int|
                    0 <= d < old(graph).cells().len() ==> (#[trigger] graph.cells()[d]).links == old(graph).cells()[d].links,
            decreases self.tasks().len() - i,
        {
            let ghost cells = graph.cells();
            proof {
                assert(old(graph).contains(old(self).tasks()[i as int].promise));
            }
            let _ = self.tasks[i].try_resolve(graph);
            proof {
                assert forall|d: int|
                    0 <= d < old(graph).cells().len() && !old(graph).pending(d) implies (
                #[trigger] graph.cells()[d]) == old(graph).cells()[d] by {
                    assert(cells[d] == old(graph).cells()[d]);
                }
                assert forall|d: int|
                    0 <= d < old(graph).cells().len() && old(graph).sources()[d] is Root && !(exists|
                        k: int,
                    |
                        0 <= k < old(self).tasks().len() && (
                        #[trigger] old(self).tasks()[k]).promise.index == d) implies (
                #[trigger] graph.cells()[d]) == old(graph).cells()[d] by {
                    assert(old(self).tasks()[i as int].promise.index != d);
                    assert(cells[d] == old(graph).cells()[d]);
                }
            }
            i += 1;
        }
        let total = self.tasks.len();
        let mut polled: Vec<AsyncPromise<T>> = Vec::new();
        std::mem::swap(&mut self.tasks, &mut polled);
        let mut finished: usize = 0;
        let ghost all = polled@;
        for task in iter: polled
            invariant
                iter.seq() == all,
                all == old(self).tasks(),
                total == all.len(),
                old(self).within(old(graph)),
                graph.cells().len() == old(graph).cells().len(),
                self.tasks() == awaiting(all.take(iter.index() as int), graph),
                finished + self.tasks().len() == iter.index(),
        {
            proof {
                assert(all.take(iter.index() + 1).drop_last() =~= all.take(iter.index() as int));
                assert(all.take(iter.index() + 1).last() == task);
                assert(old(graph).contains(all[iter.index() as int].promise));
            }
            if task.promise.is_pending(graph) {
                self.tasks.push(task);
            } else {
                finished += 1;
            }
        }
        proof {
            assert(all.take(all.len() as int) =~= all);
            lemma_awaiting(all, graph);
            assert forall|j: int| 0 <= j < self.tasks().len() implies graph.contains(
                (#[trigger] self.tasks()[j]).promise,
            ) by {
                assert(all.contains(self.tasks()[j]));
                let at = choose|at: int| 0 <= at < all.len() && all[at] == self.tasks()[j];
                assert(old(graph).contains(all[at].promise));
            }
        }
        finished
    }
}

/// The tasks whose promise is pending in the graph, in the same order.
pub open spec fn awaiting<T, F: Fn(&T) -> T, J: Fn(Vec<&T>) -> T>(
    tasks: Seq<AsyncPromise<T>>,
    graph: &PromiseGraph<T, F, J>,
) -> Seq<AsyncPromise<T>>
    decreases tasks.len(),
{
    if tasks.len() == 0 {
        tasks
    } else if graph.pending(tasks.last().promise.index as int) {
        awaiting(tasks.drop_last(), graph).push(tasks.last())
    } else {
        awaiting(tasks.drop_last(), graph)
    }
}

/// The tasks that are awaited on are among the tasks, each with a pending
/// promise, and every task with a pending promise is among them.
pub proof fn lemma_awaiting<T, F: Fn(&T) -> T, J: Fn(Vec<&T>) -> T>(
    tasks: Seq<AsyncPromise<T>>,
    graph: &PromiseGraph<T, F, J>,
)
    ensures
        awaiting(tasks, graph).len() <= tasks.len(),
        forall|j: int|
            0 <= j < awaiting(tasks, graph).len() ==> tasks.contains(#[trigger] awaiting(tasks, graph)[j])
                && graph.pending(awaiting(tasks, graph)[j].promise.index as int),
        forall|i: int|
            0 <= i < tasks.len() && graph.pending((#[trigger] tasks[i]).promise.index as int)
                ==> awaiting(tasks, graph).contains(tasks[i]),
    decreases tasks.len(),
{
    if tasks.len() > 0 {
        let front = tasks.drop_last();
        lemma_awaiting(front, graph);
        let kept = awaiting(front, graph);
        let all = awaiting(tasks, graph);
        assert forall|j: int| 0 <= j < all.len() implies tasks.contains(#[trigger] all[j])
            && graph.pending(all[j].promise.index as int) by {
            if j < kept.len() {
                assert(all[j] == kept[j]);
                assert(front.contains(kept[j]));
                let at = choose|at: int| 0 <= at < front.len() && front[at] == kept[j];
                assert(tasks[at] == kept[j]);
            } else {
                assert(tasks[tasks.len() - 1] == all[j]);
            }
        }
        assert forall|i: int|
            0 <= i < tasks.len() && graph.pending((#[trigger] tasks[i]).promise.index as int) implies all.contains(
            tasks[i],
        ) by {
            if i < front.len() {
                assert(front[i] == tasks[i]);
                assert(kept.contains(front[i]));
                let at = choose|at: int| 0 <= at < kept.len() && kept[at] == front[i];
                assert(all[at] == tasks[i]);
            } else {
                assert(all[all.len() - 1] == tasks[i]);
            }
        }
    }
}

} // verus!
